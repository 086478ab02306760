//! The comparison of two machines: a walk over pairs of nodes, one of each
//! machine, that holds the edges of the two nodes against each other by
//! their keys.

use crate::graph::{ids, EdgeId, NodeId};
use crate::machine::{Error, MachineGraph, Side};
use crate::text::{
    lemma_text_lt_irreflexive, lemma_text_lt_total, lemma_text_lt_transitive, text_lt, Text,
};
use crate::types::{Command, EventType, MachineLabel, MachineLabelView, Named};
use vstd::prelude::*;

verus! {

/// What tells the edges at one node of a machine apart: the command of an
/// execution, or the event type of an input.
#[derive(Debug, PartialEq, Eq, PartialOrd, Ord)]
pub enum DeterministicLabel {
    Command(Command),
    Event(EventType),
}

/// The mathematical model of a key: whether it is an event type, and the
/// name.
pub type Key = (bool, Text);

impl View for DeterministicLabel {
    type V = Key;

    open spec fn view(&self) -> Key {
        match self {
            DeterministicLabel::Command(c) => (false, c@),
            DeterministicLabel::Event(e) => (true, e@),
        }
    }
}

/// The key of a label.
pub open spec fn key_of(label: MachineLabelView) -> Key {
    match label {
        MachineLabelView::Execute { cmd, .. } => (false, cmd),
        MachineLabelView::Input { event } => (true, event),
    }
}

/// The order of the keys: commands before event types, and each kind by
/// name.
pub open spec fn key_lt(a: Key, b: Key) -> bool {
    (!a.0 && b.0) || (a.0 == b.0 && text_lt(a.1, b.1))
}

impl DeterministicLabel {
    /// The key of a label.
    pub fn from(label: &MachineLabel) -> (key: DeterministicLabel)
        ensures
            key@ == key_of(label@),
    {
        match label {
            MachineLabel::Execute { cmd, .. } => DeterministicLabel::Command(cmd.clone()),
            MachineLabel::Input { event_type } => DeterministicLabel::Event(event_type.clone()),
        }
    }

    /// Whether both keys are the same.
    pub fn same(&self, other: &DeterministicLabel) -> (r: bool)
        ensures
            r == (self@ == other@),
    {
        match (self, other) {
            (DeterministicLabel::Command(a), DeterministicLabel::Command(b)) => a.name().same(b.name()),
            (DeterministicLabel::Event(a), DeterministicLabel::Event(b)) => a.name().same(b.name()),
            _ => false,
        }
    }

    /// Whether this key sorts strictly before `other`.
    pub fn below(&self, other: &DeterministicLabel) -> (r: bool)
        ensures
            r == key_lt(self@, other@),
    {
        match (self, other) {
            (DeterministicLabel::Command(a), DeterministicLabel::Command(b)) => a.name().below(
                b.name(),
            ),
            (DeterministicLabel::Event(a), DeterministicLabel::Event(b)) => a.name().below(b.name()),
            (DeterministicLabel::Command(_), DeterministicLabel::Event(_)) => true,
            (DeterministicLabel::Event(_), DeterministicLabel::Command(_)) => false,
        }
    }
}

/// The key of edge `e`.
pub open spec fn edge_key(g: &MachineGraph, e: int) -> Key {
    key_of(g.labels()[e]@)
}

/// The number of leading edges of `kept` whose key is below `key`: where an
/// edge with `key` stands, or would stand, in a `kept` that is sorted.
pub open spec fn slot(g: &MachineGraph, kept: Seq<int>, key: Key) -> int
    decreases kept.len(),
{
    if kept.len() == 0 {
        0
    } else if key_lt(edge_key(g, kept[0]), key) {
        1 + slot(g, kept.drop_first(), key)
    } else {
        0
    }
}

/// Whether `kept` holds an edge with `key` where one would stand.
pub open spec fn holds(g: &MachineGraph, kept: Seq<int>, key: Key) -> bool {
    slot(g, kept, key) < kept.len() && edge_key(g, kept[slot(g, kept, key)]) == key
}

/// The edges of `out` that are the first with their key, in the order of
/// their keys.
pub open spec fn firsts_by_key(g: &MachineGraph, out: Seq<int>) -> Seq<int>
    decreases out.len(),
{
    if out.len() == 0 {
        Seq::empty()
    } else {
        let kept = firsts_by_key(g, out.drop_last());
        let key = edge_key(g, out.last());
        if holds(g, kept, key) {
            kept
        } else {
            kept.insert(slot(g, kept, key), out.last())
        }
    }
}

/// The edges of `out` whose key an earlier edge of `out` has, in the order
/// of `out`.
pub open spec fn repeats(g: &MachineGraph, out: Seq<int>) -> Seq<int>
    decreases out.len(),
{
    if out.len() == 0 {
        Seq::empty()
    } else {
        let kept = firsts_by_key(g, out.drop_last());
        let before = repeats(g, out.drop_last());
        if holds(g, kept, edge_key(g, out.last())) {
            before.push(out.last())
        } else {
            before
        }
    }
}

/// The mark of a node that no pair has visited.
pub const NO_NODE: usize = 0xffff_ffff;

/// What holding two lists of edges against each other yields: the
/// differences found, and the pairs of targets to visit next.
pub ghost struct Merge {
    pub errors: Seq<Error>,
    pub pushes: Seq<(usize, usize)>,
}

/// Holds the edges `l` of node `li` on the left against the edges `r` of
/// node `ri` on the right, both in the order of their keys. A key on one
/// side only is a difference. A key on both sides pairs the targets of the
/// two edges, and the pair is visited next unless both targets have been
/// visited.
pub open spec fn merge(
    left: &MachineGraph,
    right: &MachineGraph,
    l: Seq<int>,
    r: Seq<int>,
    li: usize,
    ri: usize,
    l2r: Seq<usize>,
    r2l: Seq<usize>,
) -> Merge
    decreases l.len() + r.len(),
{
    if l.len() == 0 && r.len() == 0 {
        Merge { errors: Seq::empty(), pushes: Seq::empty() }
    } else if l.len() == 0 || (r.len() > 0 && key_lt(edge_key(right, r[0]), edge_key(left, l[0]))) {
        let rest = merge(left, right, l, r.drop_first(), li, ri, l2r, r2l);
        Merge {
            errors: seq![Error::MissingTransition(Side::Left, li, r[0] as usize)] + rest.errors,
            pushes: rest.pushes,
        }
    } else if r.len() == 0 || key_lt(edge_key(left, l[0]), edge_key(right, r[0])) {
        let rest = merge(left, right, l.drop_first(), r, li, ri, l2r, r2l);
        Merge {
            errors: seq![Error::MissingTransition(Side::Right, ri, l[0] as usize)] + rest.errors,
            pushes: rest.pushes,
        }
    } else {
        let rest = merge(left, right, l.drop_first(), r.drop_first(), li, ri, l2r, r2l);
        let lt = left.target(l[0]);
        let rt = right.target(r[0]);
        if l2r[lt] == NO_NODE || r2l[rt] == NO_NODE {
            Merge { errors: rest.errors, pushes: seq![(lt as usize, rt as usize)] + rest.pushes }
        } else {
            rest
        }
    }
}

/// The state of a comparison: the pairs still to visit, the node of the
/// other side that each visited node was last paired with, and the
/// differences found so far.
pub ghost struct Walk {
    pub stack: Seq<(usize, usize)>,
    pub l2r: Seq<usize>,
    pub r2l: Seq<usize>,
    pub errors: Seq<Error>,
}

/// The differences on edges that repeat a key, for one side.
pub open spec fn repeat_errors(side: Side, edges: Seq<int>) -> Seq<Error> {
    edges.map_values(|e: int| Error::NonDeterministic(side, e as usize))
}

/// One step of the comparison: visits the pair on top of the stack. The
/// targets paired at this pair are visited next only if the pair showed no
/// key on one side only.
pub open spec fn step(left: &MachineGraph, right: &MachineGraph, w: Walk) -> Walk {
    let (li, ri) = w.stack.last();
    let l_out = left.shape().outgoing(li as int);
    let r_out = right.shape().outgoing(ri as int);
    let l2r = w.l2r.update(li as int, ri);
    let r2l = w.r2l.update(ri as int, li);
    let m = merge(
        left,
        right,
        firsts_by_key(left, l_out),
        firsts_by_key(right, r_out),
        li,
        ri,
        l2r,
        r2l,
    );
    Walk {
        stack: w.stack.drop_last() + if m.errors.len() == 0 {
            m.pushes
        } else {
            Seq::empty()
        },
        l2r,
        r2l,
        errors: w.errors + repeat_errors(Side::Left, repeats(left, l_out)) + repeat_errors(
            Side::Right,
            repeats(right, r_out),
        ) + m.errors,
    }
}

/// The state after `n` steps, or fewer if the stack runs empty before.
pub open spec fn run(left: &MachineGraph, right: &MachineGraph, w: Walk, n: nat) -> Walk
    decreases n,
{
    if n == 0 || w.stack.len() == 0 {
        w
    } else {
        run(left, right, step(left, right, w), (n - 1) as nat)
    }
}

/// The state in which a comparison starts at the pair `(li, ri)`.
pub open spec fn start(left: &MachineGraph, right: &MachineGraph, li: usize, ri: usize) -> Walk {
    Walk {
        stack: seq![(li, ri)],
        l2r: Seq::new(left.shape().nodes, |i: int| NO_NODE),
        r2l: Seq::new(right.shape().nodes, |i: int| NO_NODE),
        errors: Seq::empty(),
    }
}


/// The slot of a key is the position before which every key is below it and
/// at which no key is.
proof fn lemma_slot_is(g: &MachineGraph, kept: Seq<int>, key: Key, p: int)
    requires
        0 <= p <= kept.len(),
        forall|j: int| 0 <= j < p ==> key_lt(edge_key(g, #[trigger] kept[j]), key),
        p < kept.len() ==> !key_lt(edge_key(g, kept[p]), key),
    ensures
        slot(g, kept, key) == p,
    decreases kept.len(),
{
    if kept.len() > 0 && p > 0 {
        assert(key_lt(edge_key(g, kept[0]), key));
        let rest = kept.drop_first();
        assert forall|j: int| 0 <= j < p - 1 implies key_lt(edge_key(g, #[trigger] rest[j]), key) by {
            assert(rest[j] == kept[j + 1]);
        }
        lemma_slot_is(g, rest, key, p - 1);
    }
}

/// Sorts the edges of `out` by key, keeping for each key the first edge
/// that has it, and reports every other edge as a difference on `side`.
#[verifier::spinoff_prover]
fn collect_keys(g: &MachineGraph, out: &Vec<EdgeId>, side: Side, errors: &mut Vec<Error>) -> (kept:
    Vec<EdgeId>)
    requires
        g.wf(),
        forall|k: int| 0 <= k < out@.len() ==> g.shape().has_edge(#[trigger] out@[k] as int),
    ensures
        ids(kept@) == firsts_by_key(g, ids(out@)),
        final(errors)@ == old(errors)@ + repeat_errors(side, repeats(g, ids(out@))),
        forall|k: int| 0 <= k < kept@.len() ==> g.shape().has_edge(#[trigger] kept@[k] as int),
{
    let mut kept: Vec<EdgeId> = Vec::new();
    let ghost all = ids(out@);
    let mut i: usize = 0;
    proof {
        assert(all.take(0) =~= Seq::<int>::empty());
        assert(ids(kept@) =~= Seq::<int>::empty());
        assert(errors@ =~= old(errors)@ + repeat_errors(side, Seq::<int>::empty()));
    }
    while i < out.len()
        invariant
            i <= out@.len(),
            g.wf(),
            all == ids(out@),
            forall|k: int| 0 <= k < out@.len() ==> g.shape().has_edge(#[trigger] out@[k] as int),
            forall|k: int| 0 <= k < kept@.len() ==> g.shape().has_edge(#[trigger] kept@[k] as int),
            ids(kept@) == firsts_by_key(g, all.take(i as int)),
            errors@ == old(errors)@ + repeat_errors(side, repeats(g, all.take(i as int))),
        decreases out@.len() - i,
    {
        let edge = out[i];
        let key = DeterministicLabel::from(g.edge_weight(edge));
        let ghost before = ids(kept@);
        let ghost k = key@;
        let mut p: usize = 0;
        while p < kept.len() && DeterministicLabel::from(g.edge_weight(kept[p])).below(&key)
            invariant
                p <= kept@.len(),
                g.wf(),
                before == ids(kept@),
                k == key@,
                forall|j: int| 0 <= j < kept@.len() ==> g.shape().has_edge(#[trigger] kept@[j] as int),
                forall|j: int| 0 <= j < p ==> key_lt(edge_key(g, #[trigger] before[j]), k),
            decreases kept@.len() - p,
        {
            assert(before[p as int] == kept@[p as int]);
            p += 1;
        }
        let known = p < kept.len() && DeterministicLabel::from(g.edge_weight(kept[p])).same(&key);
        proof {
            if p < kept@.len() {
                assert(before[p as int] == kept@[p as int]);
            }
            lemma_slot_is(g, before, k, p as int);
            assert(all.take(i + 1).drop_last() =~= all.take(i as int));
            assert(all.take(i + 1).last() == edge);
            assert(known == holds(g, before, k));
        }
        if known {
            let ghost old_errors = errors@;
            errors.push(Error::NonDeterministic(side, edge));
            proof {
                let r0 = repeats(g, all.take(i as int));
                assert(repeat_errors(side, r0.push(edge as int)) =~= repeat_errors(side, r0).push(
                    Error::NonDeterministic(side, edge),
                ));
                assert(errors@ =~= old(errors)@ + repeat_errors(side, r0.push(edge as int)));
            }
        } else {
            kept.insert(p, edge);
            proof {
                assert(ids(kept@) =~= before.insert(p as int, edge as int));
                assert forall|j: int| 0 <= j < kept@.len() implies g.shape().has_edge(
                    #[trigger] kept@[j] as int,
                ) by {
                    if j < p {
                        assert(kept@[j] == before[j]);
                    } else if j > p {
                        assert(kept@[j] == before[j - 1]);
                    }
                }
            }
        }
        i += 1;
    }
    proof {
        assert(all.take(all.len() as int) =~= all);
    }
    kept
}


/// Whether every pair of `pairs` is a node of the left machine and a node
/// of the right machine of which at least one has not been visited.
pub open spec fn fresh_pairs(pairs: Seq<(usize, usize)>, l2r: Seq<usize>, r2l: Seq<usize>) -> bool {
    forall|k: int|
        0 <= k < pairs.len() ==> (#[trigger] pairs[k]).0 < l2r.len() && pairs[k].1 < r2l.len() && (
        l2r[pairs[k].0 as int] == NO_NODE || r2l[pairs[k].1 as int] == NO_NODE)
}

/// The pairs that a merge yields are fresh.
proof fn lemma_merge_fresh(
    left: &MachineGraph,
    right: &MachineGraph,
    l: Seq<int>,
    r: Seq<int>,
    li: usize,
    ri: usize,
    l2r: Seq<usize>,
    r2l: Seq<usize>,
)
    requires
        left.wf(),
        right.wf(),
        l2r.len() == left.shape().nodes,
        r2l.len() == right.shape().nodes,
        forall|k: int| 0 <= k < l.len() ==> left.shape().has_edge(#[trigger] l[k]),
        forall|k: int| 0 <= k < r.len() ==> right.shape().has_edge(#[trigger] r[k]),
    ensures
        fresh_pairs(merge(left, right, l, r, li, ri, l2r, r2l).pushes, l2r, r2l),
    decreases l.len() + r.len(),
{
    if l.len() == 0 && r.len() == 0 {
    } else if l.len() == 0 || (r.len() > 0 && key_lt(edge_key(right, r[0]), edge_key(left, l[0]))) {
        assert forall|k: int| 0 <= k < r.drop_first().len() implies right.shape().has_edge(
            #[trigger] r.drop_first()[k],
        ) by {
            assert(r.drop_first()[k] == r[k + 1]);
        }
        lemma_merge_fresh(left, right, l, r.drop_first(), li, ri, l2r, r2l);
    } else if r.len() == 0 || key_lt(edge_key(left, l[0]), edge_key(right, r[0])) {
        assert forall|k: int| 0 <= k < l.drop_first().len() implies left.shape().has_edge(
            #[trigger] l.drop_first()[k],
        ) by {
            assert(l.drop_first()[k] == l[k + 1]);
        }
        lemma_merge_fresh(left, right, l.drop_first(), r, li, ri, l2r, r2l);
    } else {
        assert forall|k: int| 0 <= k < r.drop_first().len() implies right.shape().has_edge(
            #[trigger] r.drop_first()[k],
        ) by {
            assert(r.drop_first()[k] == r[k + 1]);
        }
        assert forall|k: int| 0 <= k < l.drop_first().len() implies left.shape().has_edge(
            #[trigger] l.drop_first()[k],
        ) by {
            assert(l.drop_first()[k] == l[k + 1]);
        }
        lemma_merge_fresh(left, right, l.drop_first(), r.drop_first(), li, ri, l2r, r2l);
        let rest = merge(left, right, l.drop_first(), r.drop_first(), li, ri, l2r, r2l);
        let lt = left.target(l[0]);
        let rt = right.target(r[0]);
        assert(left.shape().has_edge(l[0]));
        assert(right.shape().has_edge(r[0]));
        assert(0 <= left.shape().edges[l[0]].1 < left.shape().nodes);
        assert(0 <= right.shape().edges[r[0]].1 < right.shape().nodes);
        if l2r[lt] == NO_NODE || r2l[rt] == NO_NODE {
            let pushes = seq![(lt as usize, rt as usize)] + rest.pushes;
            assert forall|k: int| 0 <= k < pushes.len() implies (#[trigger] pushes[k]).0 < l2r.len()
                && pushes[k].1 < r2l.len() && (l2r[pushes[k].0 as int] == NO_NODE || r2l[pushes[k].1 as int]
                == NO_NODE) by {
                if k > 0 {
                    assert(pushes[k] == rest.pushes[k - 1]);
                }
            }
        }
    }
}

/// Holds the sorted edges of the two nodes against each other: reports the
/// keys on one side only, and puts the pairs of targets on the stack.
/// Returns whether no difference was found.
#[verifier::spinoff_prover]
fn merge_edges(
    left: &MachineGraph,
    right: &MachineGraph,
    l: &Vec<EdgeId>,
    r: &Vec<EdgeId>,
    li: NodeId,
    ri: NodeId,
    l2r: &Vec<usize>,
    r2l: &Vec<usize>,
    stack: &mut Vec<(usize, usize)>,
    errors: &mut Vec<Error>,
) -> (same: bool)
    requires
        left.wf(),
        right.wf(),
        l2r@.len() == left.shape().nodes,
        r2l@.len() == right.shape().nodes,
        forall|k: int| 0 <= k < l@.len() ==> left.shape().has_edge(#[trigger] l@[k] as int),
        forall|k: int| 0 <= k < r@.len() ==> right.shape().has_edge(#[trigger] r@[k] as int),
    ensures
        final(errors)@ == old(errors)@ + merge(
            left,
            right,
            ids(l@),
            ids(r@),
            li,
            ri,
            l2r@,
            r2l@,
        ).errors,
        final(stack)@ == old(stack)@ + merge(left, right, ids(l@), ids(r@), li, ri, l2r@, r2l@).pushes,
        same == (merge(left, right, ids(l@), ids(r@), li, ri, l2r@, r2l@).errors.len() == 0),
{
    let ghost ls = ids(l@);
    let ghost rs = ids(r@);
    let ghost total = merge(left, right, ls, rs, li, ri, l2r@, r2l@);
    let ghost mut done_errors = Seq::<Error>::empty();
    let ghost mut done_pushes = Seq::<(usize, usize)>::empty();
    let mut same = true;
    let mut a: usize = 0;
    let mut b: usize = 0;
    proof {
        assert(ls.skip(0) =~= ls);
        assert(rs.skip(0) =~= rs);
        assert(errors@ =~= old(errors)@ + done_errors);
        assert(stack@ =~= old(stack)@ + done_pushes);
    }
    while a < l.len() || b < r.len()
        invariant
            a <= l@.len(),
            b <= r@.len(),
            left.wf(),
            right.wf(),
            ls == ids(l@),
            rs == ids(r@),
            l2r@.len() == left.shape().nodes,
            r2l@.len() == right.shape().nodes,
            forall|k: int| 0 <= k < l@.len() ==> left.shape().has_edge(#[trigger] l@[k] as int),
            forall|k: int| 0 <= k < r@.len() ==> right.shape().has_edge(#[trigger] r@[k] as int),
            errors@ == old(errors)@ + done_errors,
            stack@ == old(stack)@ + done_pushes,
            same == (done_errors.len() == 0),
            total.errors == done_errors + merge(
                left,
                right,
                ls.skip(a as int),
                rs.skip(b as int),
                li,
                ri,
                l2r@,
                r2l@,
            ).errors,
            total.pushes == done_pushes + merge(
                left,
                right,
                ls.skip(a as int),
                rs.skip(b as int),
                li,
                ri,
                l2r@,
                r2l@,
            ).pushes,
        decreases (l@.len() - a) + (r@.len() - b),
    {
        let ghost lrest = ls.skip(a as int);
        let ghost rrest = rs.skip(b as int);
        let ghost here = merge(left, right, lrest, rrest, li, ri, l2r@, r2l@);
        proof {
            if a < l@.len() {
                assert(lrest[0] == l@[a as int]);
                assert(lrest.drop_first() =~= ls.skip(a + 1));
            }
            if b < r@.len() {
                assert(rrest[0] == r@[b as int]);
                assert(rrest.drop_first() =~= rs.skip(b + 1));
            }
        }
        let mut right_only = a >= l.len();
        let mut left_only = false;
        if !right_only {
            if b >= r.len() {
                left_only = true;
            } else {
                let l_key = DeterministicLabel::from(left.edge_weight(l[a]));
                let r_key = DeterministicLabel::from(right.edge_weight(r[b]));
                if r_key.below(&l_key) {
                    right_only = true;
                } else if l_key.below(&r_key) {
                    left_only = true;
                }
            }
        }
        if right_only {
            let ghost item = Error::MissingTransition(Side::Left, li, r@[b as int]);
            errors.push(Error::MissingTransition(Side::Left, li, r[b]));
            same = false;
            proof {
                let rest = merge(left, right, lrest, rrest.drop_first(), li, ri, l2r@, r2l@);
                assert(here.errors == seq![item] + rest.errors);
                done_errors = done_errors.push(item);
                assert(total.errors =~= done_errors + rest.errors);
                assert(errors@ =~= old(errors)@ + done_errors);
            }
            b += 1;
        } else if left_only {
            let ghost item = Error::MissingTransition(Side::Right, ri, l@[a as int]);
            errors.push(Error::MissingTransition(Side::Right, ri, l[a]));
            same = false;
            proof {
                let rest = merge(left, right, lrest.drop_first(), rrest, li, ri, l2r@, r2l@);
                assert(here.errors == seq![item] + rest.errors);
                done_errors = done_errors.push(item);
                assert(total.errors =~= done_errors + rest.errors);
                assert(errors@ =~= old(errors)@ + done_errors);
            }
            a += 1;
        } else {
            let l_ends = left.edge_endpoints(l[a]).unwrap();
            let r_ends = right.edge_endpoints(r[b]).unwrap();
            let lt = l_ends.1;
            let rt = r_ends.1;
            let ghost rest = merge(
                left,
                right,
                lrest.drop_first(),
                rrest.drop_first(),
                li,
                ri,
                l2r@,
                r2l@,
            );
            if l2r[lt] == NO_NODE || r2l[rt] == NO_NODE {
                stack.push((lt, rt));
                proof {
                    assert(here.pushes == seq![(lt, rt)] + rest.pushes);
                    done_pushes = done_pushes.push((lt, rt));
                    assert(total.pushes =~= done_pushes + rest.pushes);
                    assert(stack@ =~= old(stack)@ + done_pushes);
                }
            }
            a += 1;
            b += 1;
        }
    }
    proof {
        assert(ls.skip(a as int) =~= Seq::<int>::empty());
        assert(rs.skip(b as int) =~= Seq::<int>::empty());
        assert(total.errors =~= done_errors);
        assert(total.pushes =~= done_pushes);
    }
    same
}


/// The number of nodes that no pair has visited.
pub open spec fn unvisited(marks: Seq<usize>) -> nat
    decreases marks.len(),
{
    if marks.len() == 0 {
        0
    } else {
        unvisited(marks.drop_last()) + if marks.last() == NO_NODE {
            1nat
        } else {
            0nat
        }
    }
}

/// Visiting a node takes it off the count, unless it was visited before.
proof fn lemma_unvisited_update(marks: Seq<usize>, i: int, v: usize)
    requires
        0 <= i < marks.len(),
        v != NO_NODE,
    ensures
        unvisited(marks.update(i, v)) + (if marks[i] == NO_NODE {
            1int
        } else {
            0int
        }) == unvisited(marks),
    decreases marks.len(),
{
    let changed = marks.update(i, v);
    if i == marks.len() - 1 {
        assert(changed.drop_last() =~= marks.drop_last());
    } else {
        assert(changed.drop_last() =~= marks.drop_last().update(i, v));
        lemma_unvisited_update(marks.drop_last(), i, v);
    }
}

/// Whether both nodes of a pair have been visited.
pub open spec fn stale(pair: (usize, usize), l2r: Seq<usize>, r2l: Seq<usize>) -> bool {
    l2r[pair.0 as int] != NO_NODE && r2l[pair.1 as int] != NO_NODE
}

/// The number of pairs on the stack both of whose nodes have been visited.
pub open spec fn count_stale(stack: Seq<(usize, usize)>, l2r: Seq<usize>, r2l: Seq<usize>) -> nat
    decreases stack.len(),
{
    if stack.len() == 0 {
        0
    } else {
        count_stale(stack.drop_last(), l2r, r2l) + if stale(stack.last(), l2r, r2l) {
            1nat
        } else {
            0nat
        }
    }
}

/// Marks that tell the same nodes visited count the same pairs stale.
proof fn lemma_stale_same(
    stack: Seq<(usize, usize)>,
    l2r: Seq<usize>,
    r2l: Seq<usize>,
    l2r2: Seq<usize>,
    r2l2: Seq<usize>,
)
    requires
        forall|k: int| #![auto] 0 <= k < stack.len() ==> stale(stack[k], l2r, r2l) == stale(stack[k], l2r2, r2l2),
    ensures
        count_stale(stack, l2r, r2l) == count_stale(stack, l2r2, r2l2),
    decreases stack.len(),
{
    if stack.len() > 0 {
        let shorter = stack.drop_last();
        assert forall|k: int| #![auto] 0 <= k < shorter.len() implies stale(shorter[k], l2r, r2l)
            == stale(shorter[k], l2r2, r2l2) by {
            assert(shorter[k] == stack[k]);
        }
        lemma_stale_same(shorter, l2r, r2l, l2r2, r2l2);
        assert(stale(stack[stack.len() - 1], l2r, r2l) == stale(stack[stack.len() - 1], l2r2, r2l2));
    }
}

/// Fresh pairs put on the stack are not stale.
proof fn lemma_stale_fresh(
    stack: Seq<(usize, usize)>,
    pushes: Seq<(usize, usize)>,
    l2r: Seq<usize>,
    r2l: Seq<usize>,
)
    requires
        fresh_pairs(pushes, l2r, r2l),
    ensures
        count_stale(stack + pushes, l2r, r2l) == count_stale(stack, l2r, r2l),
    decreases pushes.len(),
{
    if pushes.len() == 0 {
        assert(stack + pushes =~= stack);
    } else {
        let shorter = pushes.drop_last();
        assert forall|k: int| 0 <= k < shorter.len() implies (#[trigger] shorter[k]).0 < l2r.len()
            && shorter[k].1 < r2l.len() && (l2r[shorter[k].0 as int] == NO_NODE || r2l[shorter[k].1 as int]
            == NO_NODE) by {
            assert(shorter[k] == pushes[k]);
        }
        lemma_stale_fresh(stack, shorter, l2r, r2l);
        assert((stack + pushes).drop_last() =~= stack + shorter);
        assert((stack + pushes).last() == pushes[pushes.len() - 1]);
    }
}

/// One more step of a run that has pairs left is a step from where the run
/// stands.
pub proof fn lemma_run_step(left: &MachineGraph, right: &MachineGraph, w: Walk, n: nat)
    requires
        run(left, right, w, n).stack.len() > 0,
    ensures
        run(left, right, w, n + 1) == step(left, right, run(left, right, w, n)),
    decreases n,
{
    if n > 0 {
        if w.stack.len() > 0 {
            lemma_run_step(left, right, step(left, right, w), (n - 1) as nat);
        }
    } else {
        assert(run(left, right, step(left, right, w), 0) == step(left, right, w));
    }
}

/// Whether every pair on the stack is a node of the left machine and a
/// node of the right machine.
pub open spec fn valid_pairs(stack: Seq<(usize, usize)>, left: &MachineGraph, right: &MachineGraph) -> bool {
    forall|k: int|
        0 <= k < stack.len() ==> (#[trigger] stack[k]).0 < left.shape().nodes && stack[k].1
            < right.shape().nodes
}

/// A list of `n` marks of nodes that no pair has visited.
fn unvisited_marks(n: usize) -> (marks: Vec<usize>)
    ensures
        marks@ == Seq::new(n as nat, |i: int| NO_NODE),
{
    let mut marks: Vec<usize> = Vec::new();
    while marks.len() < n
        invariant
            marks@.len() <= n,
            forall|i: int| 0 <= i < marks@.len() ==> #[trigger] marks@[i] == NO_NODE,
        decreases n - marks@.len(),
    {
        marks.push(NO_NODE);
    }
    assert(marks@ =~= Seq::new(n as nat, |i: int| NO_NODE));
    marks
}

/// Compares the machine `left`, the reference, from node `li` with the
/// machine `right`, the specimen, from node `ri`.
///
/// The differences are those that the walk over the pairs of nodes finds,
/// step by step, from the pair `(li, ri)` until no pair is left.
#[verifier::spinoff_prover]
pub fn equivalent(left: &MachineGraph, li: NodeId, right: &MachineGraph, ri: NodeId) -> (errors: Vec<
    Error,
>)
    requires
        left.wf(),
        right.wf(),
        li < left.shape().nodes,
        ri < right.shape().nodes,
    ensures
        exists|n: nat|
            (#[trigger] run(left, right, start(left, right, li, ri), n)).stack.len() == 0 && errors@
                == run(left, right, start(left, right, li, ri), n).errors,
{
    let mut errors: Vec<Error> = Vec::new();
    let mut l2r = unvisited_marks(left.node_count());
    let mut r2l = unvisited_marks(right.node_count());
    let mut stack: Vec<(usize, usize)> = Vec::new();
    stack.push((li, ri));
    let ghost w0 = start(left, right, li, ri);
    let ghost mut n: nat = 0;
    proof {
        assert(stack@ =~= w0.stack);
        assert(errors@ =~= w0.errors);
    }
    loop
        invariant
            left.wf(),
            right.wf(),
            w0 == start(left, right, li, ri),
            run(left, right, w0, n) == (Walk { stack: stack@, l2r: l2r@, r2l: r2l@, errors: errors@ }),
            l2r@.len() == left.shape().nodes,
            r2l@.len() == right.shape().nodes,
            valid_pairs(stack@, left, right),
        ensures
            stack@.len() == 0,
            run(left, right, w0, n) == (Walk { stack: stack@, l2r: l2r@, r2l: r2l@, errors: errors@ }),
        decreases unvisited(l2r@) + unvisited(r2l@), count_stale(stack@, l2r@, r2l@),
    {
        let ghost w = Walk { stack: stack@, l2r: l2r@, r2l: r2l@, errors: errors@ };
        let ghost before = stack@;
        let (a, b) = match stack.pop() {
            Some(pair) => pair,
            None => {
                break ;
            },
        };
        proof {
            assert(before.last() == (a, b));
            assert(stack@ =~= before.drop_last());
            lemma_run_step(left, right, w0, n);
            assert forall|k: int| 0 <= k < stack@.len() implies (#[trigger] stack@[k]).0
                < left.shape().nodes && stack@[k].1 < right.shape().nodes by {
                assert(stack@[k] == before[k]);
            }
        }
        let l_out = left.outgoing(a);
        let l_edges = collect_keys(left, &l_out, Side::Left, &mut errors);
        let r_out = right.outgoing(b);
        let r_edges = collect_keys(right, &r_out, Side::Right, &mut errors);
        let stack_len = stack.len();
        let ghost l2r0 = l2r@;
        let ghost r2l0 = r2l@;
        let ghost base = stack@;
        l2r.set(a, b);
        r2l.set(b, a);
        let same = merge_edges(left, right, &l_edges, &r_edges, a, b, &l2r, &r2l, &mut stack, &mut errors);
        let ghost m = merge(left, right, ids(l_edges@), ids(r_edges@), a, b, l2r@, r2l@);
        proof {
            lemma_merge_fresh(left, right, ids(l_edges@), ids(r_edges@), a, b, l2r@, r2l@);
            assert forall|k: int| 0 <= k < ids(l_edges@).len() implies left.shape().has_edge(
                #[trigger] ids(l_edges@)[k],
            ) by {
                assert(ids(l_edges@)[k] == l_edges@[k] as int);
            }
        }
        if !same {
            stack.truncate(stack_len);
            proof {
                assert(stack@ =~= base);
            }
        }
        proof {
            let next = step(left, right, w);
            assert(next.stack =~= stack@);
            assert(next.errors =~= errors@);
            assert(next.l2r == l2r@);
            assert(next.r2l == r2l@);
            assert(run(left, right, w0, n + 1) == next);
            // the pairs on the stack are nodes of the two machines
            assert forall|k: int| 0 <= k < stack@.len() implies (#[trigger] stack@[k]).0
                < left.shape().nodes && stack@[k].1 < right.shape().nodes by {
                if k < base.len() {
                    assert(stack@[k] == base[k]);
                } else {
                    assert(stack@[k] == m.pushes[k - base.len()]);
                }
            }
            // the walk comes nearer to its end
            lemma_unvisited_update(l2r0, a as int, b);
            lemma_unvisited_update(r2l0, b as int, a);
            if l2r0[a as int] != NO_NODE && r2l0[b as int] != NO_NODE {
                assert forall|k: int| #![auto] 0 <= k < base.len() implies stale(base[k], l2r0, r2l0)
                    == stale(base[k], l2r@, r2l@) by {}
                lemma_stale_same(base, l2r0, r2l0, l2r@, r2l@);
                if same {
                    lemma_stale_fresh(base, m.pushes, l2r@, r2l@);
                }
                assert(stale(before.last(), l2r0, r2l0));
                assert(before.drop_last() =~= base);
            }
            n = n + 1;
        }
    }
    proof {
        assert(run(left, right, w0, n).stack.len() == 0);
    }
    errors
}


/// No key is below itself.
pub proof fn lemma_key_lt_irreflexive(a: Key)
    ensures
        !key_lt(a, a),
{
    lemma_text_lt_irreflexive(a.1);
}

/// The order of the keys is transitive.
pub proof fn lemma_key_lt_transitive(a: Key, b: Key, c: Key)
    requires
        key_lt(a, b),
        key_lt(b, c),
    ensures
        key_lt(a, c),
{
    if a.0 == b.0 && b.0 == c.0 {
        lemma_text_lt_transitive(a.1, b.1, c.1);
    }
}

/// Two different keys are ordered one way or the other.
pub proof fn lemma_key_lt_total(a: Key, b: Key)
    ensures
        a == b || key_lt(a, b) || key_lt(b, a),
{
    lemma_text_lt_total(a.1, b.1);
}

/// Whether the keys of the edges `kept` rise strictly.
pub open spec fn sorted_keys(g: &MachineGraph, kept: Seq<int>) -> bool {
    forall|a: int, b: int|
        0 <= a < b < kept.len() ==> key_lt(edge_key(g, #[trigger] kept[a]), edge_key(g, #[trigger] kept[b]))
}

/// In a list sorted by key, the slot of a key parts the keys below it from
/// the others.
pub proof fn lemma_slot_parts(g: &MachineGraph, kept: Seq<int>, key: Key)
    requires
        sorted_keys(g, kept),
    ensures
        0 <= slot(g, kept, key) <= kept.len(),
        forall|j: int| 0 <= j < slot(g, kept, key) ==> key_lt(edge_key(g, #[trigger] kept[j]), key),
        forall|j: int|
            slot(g, kept, key) <= j < kept.len() ==> !key_lt(edge_key(g, #[trigger] kept[j]), key),
    decreases kept.len(),
{
    if kept.len() > 0 {
        let rest = kept.drop_first();
        assert forall|a: int, b: int| 0 <= a < b < rest.len() implies key_lt(
            edge_key(g, #[trigger] rest[a]),
            edge_key(g, #[trigger] rest[b]),
        ) by {
            assert(rest[a] == kept[a + 1]);
            assert(rest[b] == kept[b + 1]);
        }
        lemma_slot_parts(g, rest, key);
        if key_lt(edge_key(g, kept[0]), key) {
            assert forall|j: int| 0 <= j < slot(g, kept, key) implies key_lt(
                edge_key(g, #[trigger] kept[j]),
                key,
            ) by {
                if j > 0 {
                    assert(kept[j] == rest[j - 1]);
                }
            }
            assert forall|j: int| slot(g, kept, key) <= j < kept.len() implies !key_lt(
                edge_key(g, #[trigger] kept[j]),
                key,
            ) by {
                assert(kept[j] == rest[j - 1]);
            }
        } else {
            assert forall|j: int| 0 <= j < kept.len() implies !key_lt(
                edge_key(g, #[trigger] kept[j]),
                key,
            ) by {
                if j > 0 {
                    assert(key_lt(edge_key(g, kept[0]), edge_key(g, kept[j])));
                    if key_lt(edge_key(g, kept[j]), key) {
                        lemma_key_lt_transitive(edge_key(g, kept[0]), edge_key(g, kept[j]), key);
                    }
                }
            }
        }
    }
}

/// A list sorted by key holds a key where it would stand exactly when it
/// holds the key at all.
pub proof fn lemma_holds_any(g: &MachineGraph, kept: Seq<int>, key: Key)
    requires
        sorted_keys(g, kept),
    ensures
        holds(g, kept, key) <==> exists|j: int| 0 <= j < kept.len() && edge_key(g, #[trigger] kept[j]) == key,
{
    lemma_slot_parts(g, kept, key);
    let p = slot(g, kept, key);
    if exists|j: int| 0 <= j < kept.len() && edge_key(g, #[trigger] kept[j]) == key {
        let j = choose|j: int| 0 <= j < kept.len() && edge_key(g, #[trigger] kept[j]) == key;
        lemma_key_lt_irreflexive(key);
        assert(j >= p);
        if j > p {
            assert(key_lt(edge_key(g, kept[p]), edge_key(g, kept[j])));
            assert(!key_lt(edge_key(g, kept[p]), key));
        }
    }
}

/// The edges kept for a node are sorted by key, so that no two have the
/// same key.
pub proof fn lemma_firsts_sorted(g: &MachineGraph, out: Seq<int>)
    ensures
        sorted_keys(g, firsts_by_key(g, out)),
    decreases out.len(),
{
    if out.len() > 0 {
        let shorter = out.drop_last();
        let kept = firsts_by_key(g, shorter);
        let last = out.last();
        let key = edge_key(g, last);
        let now = firsts_by_key(g, out);
        lemma_firsts_sorted(g, shorter);
        lemma_slot_parts(g, kept, key);
        lemma_holds_any(g, kept, key);
        let p = slot(g, kept, key);
        if !holds(g, kept, key) {
            assert(now == kept.insert(p, last));
            assert forall|a: int, b: int| 0 <= a < b < now.len() implies key_lt(
                edge_key(g, #[trigger] now[a]),
                edge_key(g, #[trigger] now[b]),
            ) by {
                let oa = if a < p {
                    a
                } else {
                    a - 1
                };
                let ob = if b < p {
                    b
                } else {
                    b - 1
                };
                if a == p {
                    assert(now[b] == kept[ob]);
                    assert(!key_lt(edge_key(g, kept[ob]), key));
                    lemma_key_lt_total(edge_key(g, kept[ob]), key);
                    assert(edge_key(g, kept[ob]) != key);
                } else if b == p {
                    assert(now[a] == kept[oa]);
                } else {
                    assert(now[a] == kept[oa]);
                    assert(now[b] == kept[ob]);
                }
            }
        }
    }
}

/// The edges kept for a node are edges of the node.
pub proof fn lemma_firsts_are_edges(g: &MachineGraph, out: Seq<int>, k: int)
    requires
        0 <= k < firsts_by_key(g, out).len(),
    ensures
        out.contains(firsts_by_key(g, out)[k]),
    decreases out.len(),
{
    if out.len() > 0 {
        let shorter = out.drop_last();
        let kept = firsts_by_key(g, shorter);
        let last = out.last();
        let key = edge_key(g, last);
        let now = firsts_by_key(g, out);
        let p = slot(g, kept, key);
        lemma_firsts_sorted(g, shorter);
        lemma_slot_parts(g, kept, key);
        if holds(g, kept, key) {
            lemma_firsts_are_edges(g, shorter, k);
            let i = choose|i: int| 0 <= i < shorter.len() && shorter[i] == kept[k];
            assert(out[i] == kept[k]);
        } else if k == p {
            assert(out[out.len() - 1] == last);
        } else {
            let ok = if k < p {
                k
            } else {
                k - 1
            };
            assert(now[k] == kept[ok]);
            lemma_firsts_are_edges(g, shorter, ok);
            let i = choose|i: int| 0 <= i < shorter.len() && shorter[i] == kept[ok];
            assert(out[i] == kept[ok]);
        }
    }
}

/// Each edge of a node has the key of an edge that is kept for the node.
pub proof fn lemma_firsts_have_keys(g: &MachineGraph, out: Seq<int>, k: int) -> (j: int)
    requires
        0 <= k < out.len(),
    ensures
        0 <= j < firsts_by_key(g, out).len(),
        edge_key(g, firsts_by_key(g, out)[j]) == edge_key(g, out[k]),
    decreases out.len(),
{
    let shorter = out.drop_last();
    let kept = firsts_by_key(g, shorter);
    let last = out.last();
    let key = edge_key(g, last);
    let now = firsts_by_key(g, out);
    let p = slot(g, kept, key);
    lemma_firsts_sorted(g, shorter);
    lemma_slot_parts(g, kept, key);
    lemma_holds_any(g, kept, key);
    if k < out.len() - 1 {
        assert(shorter[k] == out[k]);
        let j = lemma_firsts_have_keys(g, shorter, k);
        if holds(g, kept, key) {
            j
        } else {
            let nj = if j < p {
                j
            } else {
                j + 1
            };
            assert(now[nj] == kept[j]);
            nj
        }
    } else {
        if holds(g, kept, key) {
            p
        } else {
            assert(now[p] == last);
            p
        }
    }
}

} // verus!
