//! Ordered collections keyed by names: a set of names, a map from names to
//! values, and the subscription map of a swarm. Each keeps its names
//! strictly sorted, so that walking one visits the names in order and none
//! twice.

use crate::text::{
    lemma_text_lt_asymmetric, lemma_text_lt_irreflexive, lemma_text_lt_total,
    lemma_text_lt_transitive, strictly_sorted, text_lt, Text,
};
use crate::types::{dup, texts, EventType, Named, Role};
use vstd::prelude::*;

verus! {

/// The number of leading elements of `s` that are strictly below `x`: where
/// `x` stands, or would stand, in a sorted `s`.
pub open spec fn rank(s: Seq<Text>, x: Text) -> int
    decreases s.len(),
{
    if s.len() == 0 {
        0
    } else if text_lt(s[0], x) {
        1 + rank(s.drop_first(), x)
    } else {
        0
    }
}

/// `s` with `x` put in its place, unless `s` holds it already.
pub open spec fn with_text(s: Seq<Text>, x: Text) -> Seq<Text> {
    if s.contains(x) {
        s
    } else {
        s.insert(rank(s, x), x)
    }
}

/// The rank of a text is the position before which every text is below it
/// and at which no text is.
proof fn lemma_rank_is(s: Seq<Text>, x: Text, k: int)
    requires
        0 <= k <= s.len(),
        forall|i: int| 0 <= i < k ==> text_lt(#[trigger] s[i], x),
        k < s.len() ==> !text_lt(s[k], x),
    ensures
        rank(s, x) == k,
    decreases s.len(),
{
    if s.len() > 0 && k > 0 {
        assert(text_lt(s[0], x));
        let t = s.drop_first();
        assert forall|i: int| 0 <= i < k - 1 implies text_lt(#[trigger] t[i], x) by {
            assert(t[i] == s[i + 1]);
        }
        lemma_rank_is(t, x, k - 1);
    }
}

/// A set of names of one kind, kept in order.
#[derive(Debug, PartialEq, Eq, PartialOrd, Ord)]
pub struct NameSet<T: Named> {
    items: Vec<T>,
}

impl<T: Named> View for NameSet<T> {
    type V = Seq<Text>;

    closed spec fn view(&self) -> Seq<Text> {
        texts(self.items@)
    }
}

impl<T: Named> NameSet<T> {
    /// The set's invariant: its names are strictly sorted.
    pub open spec fn wf(&self) -> bool {
        strictly_sorted(self@)
    }

    /// The empty set.
    pub fn new() -> (s: Self)
        ensures
            s@ == Seq::<Text>::empty(),
            s.wf(),
    {
        let s = NameSet { items: Vec::new() };
        assert(s@ =~= Seq::<Text>::empty());
        s
    }

    /// The number of names in the set.
    pub fn len(&self) -> (n: usize)
        ensures
            n == self@.len(),
    {
        self.items.len()
    }

    /// Whether the set holds no name.
    pub fn is_empty(&self) -> (r: bool)
        ensures
            r == (self@.len() == 0),
    {
        self.items.len() == 0
    }

    /// The name at position `i` of the sorted order.
    pub fn get(&self, i: usize) -> (x: &T)
        requires
            i < self@.len(),
        ensures
            x.text() == self@[i as int],
    {
        &self.items[i]
    }

    /// The position of `x` in the set, if it is there.
    pub fn position<U: Named>(&self, x: &U) -> (at: Option<usize>)
        ensures
            match at {
                Some(i) => i < self@.len() && self@[i as int] == x.text(),
                None => !self@.contains(x.text()),
            },
    {
        let mut i: usize = 0;
        while i < self.items.len()
            invariant
                i <= self.items.len(),
                forall|k: int| 0 <= k < i ==> (#[trigger] self@[k]) != x.text(),
            decreases self.items.len() - i,
        {
            if self.items[i].name().same(x.name()) {
                return Some(i);
            }
            i += 1;
        }
        None
    }

    /// Whether the set holds `x`.
    pub fn contains<U: Named>(&self, x: &U) -> (r: bool)
        ensures
            r == self@.contains(x.text()),
    {
        self.position(x).is_some()
    }

    /// Puts `x` into the set. Returns the position at which `x` now stands
    /// and whether it was new.
    pub fn place(&mut self, x: T) -> (r: (usize, bool))
        requires
            old(self).wf(),
        ensures
            final(self).wf(),
            final(self)@ == with_text(old(self)@, x.text()),
            r.1 == !old(self)@.contains(x.text()),
            r.0 <= old(self)@.len(),
            r.0 < final(self)@.len(),
            final(self)@[r.0 as int] == x.text(),
            r.1 ==> final(self)@ == old(self)@.insert(r.0 as int, x.text()),
            !r.1 ==> final(self)@ == old(self)@,
            forall|y: Text|
                #![trigger final(self)@.contains(y)]
                #![trigger old(self)@.contains(y)]
                final(self)@.contains(y) <==> old(self)@.contains(y) || y == x.text(),
    {
        let ghost before = self@;
        let ghost xt = x.text();
        let mut i: usize = 0;
        while i < self.items.len() && self.items[i].name().below(x.name())
            invariant
                i <= self.items.len(),
                self@ == before,
                x.text() == xt,
                forall|k: int| 0 <= k < i ==> text_lt(#[trigger] before[k], xt),
            decreases self.items.len() - i,
        {
            i += 1;
        }
        proof {
            lemma_rank_is(before, xt, i as int);
        }
        if i < self.items.len() && self.items[i].name().same(x.name()) {
            assert(before.contains(xt));
            return (i, false);
        }
        proof {
            assert forall|k: int| 0 <= k < before.len() implies before[k] != xt by {
                if k < i {
                    lemma_text_lt_irreflexive(xt);
                } else if k > i {
                    lemma_text_lt_asymmetric(before[i as int], before[k]);
                    if before[k] == xt {
                        lemma_text_lt_total(before[i as int], xt);
                    }
                }
            }
            assert(!before.contains(xt));
        }
        self.items.insert(i, x);
        proof {
            let after = self@;
            assert(after =~= before.insert(i as int, xt));
            assert forall|a: int, b: int| 0 <= a < b < after.len() implies text_lt(
                #[trigger] after[a],
                #[trigger] after[b],
            ) by {
                let oa = if a < i { a } else { a - 1 };
                let ob = if b < i { b } else { b - 1 };
                if a == i {
                    assert(after[b] == before[ob]);
                    lemma_text_lt_total(before[i as int], xt);
                    if ob > i {
                        lemma_text_lt_transitive(xt, before[i as int], before[ob]);
                    }
                } else if b == i {
                    assert(after[a] == before[oa]);
                } else {
                    assert(after[a] == before[oa]);
                    assert(after[b] == before[ob]);
                }
            }
            assert forall|y: Text| after.contains(y) <==> before.contains(y) || y == xt by {
                if before.contains(y) {
                    let k = choose|k: int| 0 <= k < before.len() && before[k] == y;
                    let nk = if k < i { k } else { k + 1 };
                    assert(after[nk] == y);
                }
                if y == xt {
                    assert(after[i as int] == y);
                }
                if after.contains(y) {
                    let k = choose|k: int| 0 <= k < after.len() && after[k] == y;
                    if k != i {
                        let ok = if k < i { k } else { k - 1 };
                        assert(before[ok] == y);
                    }
                }
            }
        }
        (i, true)
    }

    /// Puts `x` into the set. Returns whether it was new.
    pub fn insert(&mut self, x: T) -> (fresh: bool)
        requires
            old(self).wf(),
        ensures
            final(self).wf(),
            final(self)@ == with_text(old(self)@, x.text()),
            fresh == !old(self)@.contains(x.text()),
            forall|y: Text|
                #![trigger final(self)@.contains(y)]
                #![trigger old(self)@.contains(y)]
                final(self)@.contains(y) <==> old(self)@.contains(y) || y == x.text(),
            fresh ==> final(self)@.len() == old(self)@.len() + 1,
            !fresh ==> final(self)@ == old(self)@,
    {
        self.place(x).1
    }

    /// Puts every name of `other` into the set. Returns whether the set
    /// grew.
    pub fn extend(&mut self, other: &NameSet<T>) -> (grew: bool)
        requires
            old(self).wf(),
        ensures
            final(self).wf(),
            forall|y: Text|
                #![trigger final(self)@.contains(y)]
                #![trigger old(self)@.contains(y)]
                #![trigger other@.contains(y)]
                final(self)@.contains(y) <==> old(self)@.contains(y) || other@.contains(y),
            grew == (final(self)@.len() != old(self)@.len()),
            grew == exists|y: Text| other@.contains(y) && !old(self)@.contains(y),
            final(self)@.len() >= old(self)@.len(),
            !grew ==> final(self)@ == old(self)@,
    {
        let mut grew = false;
        let mut i: usize = 0;
        while i < other.len()
            invariant
                self.wf(),
                i <= other@.len(),
                forall|y: Text|
                    self@.contains(y) <==> old(self)@.contains(y) || exists|k: int|
                        0 <= k < i && #[trigger] other@[k] == y,
                grew == (self@.len() != old(self)@.len()),
                grew == exists|k: int| 0 <= k < i && !old(self)@.contains(#[trigger] other@[k]),
                self@.len() >= old(self)@.len(),
                !grew ==> self@ == old(self)@,
            decreases other@.len() - i,
        {
            let ghost before = self@;
            let fresh = self.insert(dup(other.get(i)));
            proof {
                if fresh {
                    assert(self@.len() == before.len() + 1);
                    assert(!old(self)@.contains(other@[i as int]));
                } else {
                    assert(self@ == before);
                    assert(before.contains(other@[i as int]));
                    if !old(self)@.contains(other@[i as int]) {
                        let k = choose|k: int| 0 <= k < i && #[trigger] other@[k] == other@[i as int];
                        assert(!old(self)@.contains(other@[k]));
                    }
                }
            }
            if fresh {
                grew = true;
            }
            i += 1;
        }
        proof {
            if grew {
                let k = choose|k: int| 0 <= k < i && !old(self)@.contains(#[trigger] other@[k]);
                assert(other@.contains(other@[k]));
            }
        }
        grew
    }

    /// A copy of the set.
    pub fn duplicate(&self) -> (copy: Self)
        ensures
            copy@ == self@,
    {
        let mut items: Vec<T> = Vec::new();
        let mut i: usize = 0;
        while i < self.items.len()
            invariant
                i <= self.items.len(),
                items.len() == i,
                forall|k: int| 0 <= k < i ==> (#[trigger] items[k]).text() == self.items[k].text(),
            decreases self.items.len() - i,
        {
            items.push(dup(&self.items[i]));
            i += 1;
        }
        let copy = NameSet { items };
        assert(copy@ =~= self@);
        copy
    }
}


/// In a strictly sorted sequence each text is found at its own position.
pub proof fn lemma_sorted_index(s: Seq<Text>, i: int)
    requires
        strictly_sorted(s),
        0 <= i < s.len(),
    ensures
        s.contains(s[i]),
        s.index_of(s[i]) == i,
{
    let j = s.index_of(s[i]);
    assert(s.contains(s[i]));
    if j != i {
        lemma_text_lt_irreflexive(s[i]);
        if j < i {
            assert(text_lt(s[j], s[i]));
        } else {
            assert(text_lt(s[i], s[j]));
        }
    }
}

/// A map from names of one kind to values, kept in the order of its keys.
pub struct NameMap<K: Named, V> {
    keys: NameSet<K>,
    values: Vec<V>,
}

impl<K: Named, V> NameMap<K, V> {
    /// The keys, in order.
    pub closed spec fn keys(&self) -> Seq<Text> {
        self.keys@
    }

    /// The values, in the order of their keys.
    pub closed spec fn values(&self) -> Seq<V> {
        self.values@
    }

    /// The map's invariant: strictly sorted keys, one value for each.
    pub open spec fn wf(&self) -> bool {
        strictly_sorted(self.keys()) && self.values().len() == self.keys().len()
    }

    /// Whether the map has an entry for `k`.
    pub open spec fn has(&self, k: Text) -> bool {
        self.keys().contains(k)
    }

    /// The value stored for `k`, where the map has one.
    pub open spec fn at(&self, k: Text) -> V {
        self.values()[self.keys().index_of(k)]
    }

    /// The empty map.
    pub fn new() -> (m: Self)
        ensures
            m.wf(),
            m.keys() == Seq::<Text>::empty(),
            m.values() == Seq::<V>::empty(),
    {
        NameMap { keys: NameSet::new(), values: Vec::new() }
    }

    /// The number of entries.
    pub fn len(&self) -> (n: usize)
        ensures
            n == self.keys().len(),
    {
        self.keys.len()
    }

    /// The position of the entry for `k`, if there is one.
    pub fn find<U: Named>(&self, k: &U) -> (at: Option<usize>)
        requires
            self.wf(),
        ensures
            match at {
                Some(i) => i < self.keys().len() && self.keys()[i as int] == k.text() && self.has(
                    k.text(),
                ) && self.keys().index_of(k.text()) == i,
                None => !self.has(k.text()),
            },
    {
        let at = self.keys.position(k);
        proof {
            if let Some(i) = at {
                lemma_sorted_index(self.keys(), i as int);
            }
        }
        at
    }

    /// The key of the entry at position `i`.
    pub fn key(&self, i: usize) -> (k: &K)
        requires
            i < self.keys().len(),
        ensures
            k.text() == self.keys()[i as int],
    {
        self.keys.get(i)
    }

    /// The value of the entry at position `i`.
    pub fn value(&self, i: usize) -> (v: &V)
        requires
            self.wf(),
            i < self.keys().len(),
        ensures
            *v == self.values()[i as int],
    {
        &self.values[i]
    }

    /// Replaces the value of the entry at position `i`.
    pub fn set(&mut self, i: usize, v: V)
        requires
            old(self).wf(),
            i < old(self).keys().len(),
        ensures
            final(self).wf(),
            final(self).keys() == old(self).keys(),
            final(self).values() == old(self).values().update(i as int, v),
            final(self).at(old(self).keys()[i as int]) == v,
            forall|t: Text|
                old(self).keys().contains(t) && t != old(self).keys()[i as int] ==> final(self).at(t)
                    == old(self).at(t),
    {
        self.values.set(i, v);
        proof {
            lemma_sorted_index(self.keys(), i as int);
        }
    }

    /// Adds an entry for a key that the map does not have yet. Returns the
    /// position of the new entry.
    pub fn insert(&mut self, k: K, v: V) -> (at: usize)
        requires
            old(self).wf(),
            !old(self).has(k.text()),
        ensures
            final(self).wf(),
            at <= old(self).keys().len(),
            final(self).keys() == old(self).keys().insert(at as int, k.text()),
            final(self).values() == old(self).values().insert(at as int, v),
            forall|t: Text|
                final(self).keys().contains(t) <==> old(self).keys().contains(t) || t == k.text(),
            final(self).at(k.text()) == v,
            forall|t: Text| old(self).keys().contains(t) ==> final(self).at(t) == old(self).at(t),
    {
        let ghost kt = k.text();
        let ghost old_keys = self.keys();
        let ghost old_values = self.values();
        let placed = self.keys.place(k);
        let at = placed.0;
        assert(placed.1);
        assert(self.keys() == old_keys.insert(at as int, kt));
        self.values.insert(at, v);
        proof {
            let new_keys = self.keys();
            lemma_sorted_index(new_keys, at as int);
            assert forall|t: Text| old_keys.contains(t) implies self.at(t) == old_values[old_keys.index_of(
                t,
            )] by {
                let i = old_keys.index_of(t);
                let ni = if i < at { i } else { i + 1 };
                assert(new_keys[ni] == t);
                lemma_sorted_index(new_keys, ni);
            }
        }
        at
    }
}

/// The subscription map of a swarm: for each role the event types it
/// observes. A role without an entry observes nothing.
pub struct Subscriptions {
    entries: NameMap<Role, NameSet<EventType>>,
}

impl Subscriptions {
    /// The roles that have an entry, in order.
    pub closed spec fn roles(&self) -> Seq<Text> {
        self.entries.keys()
    }

    /// The map's invariant.
    pub closed spec fn wf(&self) -> bool {
        &&& self.entries.wf()
        &&& forall|i: int| 0 <= i < self.entries.values().len() ==> (#[trigger] self.entries.values()[i]).wf()
    }

    /// The event types that role `r` observes, in order.
    pub closed spec fn of(&self, r: Text) -> Seq<Text> {
        if self.entries.has(r) {
            self.entries.at(r)@
        } else {
            Seq::empty()
        }
    }

    /// Whether role `r` observes event type `ev`.
    pub open spec fn observes(&self, r: Text, ev: Text) -> bool {
        self.of(r).contains(ev)
    }

    /// A role that observes anything has an entry, and what it observes is
    /// strictly sorted.
    pub proof fn lemma_of(&self, r: Text)
        requires
            self.wf(),
        ensures
            strictly_sorted(self.of(r)),
            self.of(r).len() > 0 ==> self.roles().contains(r),
            strictly_sorted(self.roles()),
    {
    }

    /// The map without any entry.
    pub fn new() -> (s: Self)
        ensures
            s.wf(),
            s.roles() == Seq::<Text>::empty(),
            forall|r: Text| s.of(r) == Seq::<Text>::empty(),
    {
        Subscriptions { entries: NameMap::new() }
    }

    /// Makes sure that `role` has an entry, an empty one if it had none.
    pub fn add_role(&mut self, role: Role)
        requires
            old(self).wf(),
        ensures
            final(self).wf(),
            forall|r: Text| final(self).of(r) == old(self).of(r),
            forall|r: Text|
                final(self).roles().contains(r) <==> old(self).roles().contains(r) || r == role@,
    {
        let ghost old_keys = self.entries.keys();
        if self.entries.find(&role).is_none() {
            let ghost old_values = self.entries.values();
            let at = self.entries.insert(role, NameSet::new());
            proof {
                assert(forall|t: Text|
                    self.entries.keys().contains(t) <==> old_keys.contains(t) || t == role@);
                let new_values = self.entries.values();
                assert forall|i: int| 0 <= i < new_values.len() implies (#[trigger] new_values[i]).wf() by {
                    if i < at {
                        assert(new_values[i] == old_values[i]);
                    } else if i > at {
                        assert(new_values[i] == old_values[i - 1]);
                    }
                }
            }
        }
    }

    /// Records that `role` observes `event`.
    pub fn subscribe(&mut self, role: Role, event: EventType)
        requires
            old(self).wf(),
        ensures
            final(self).wf(),
            forall|r: Text, ev: Text|
                final(self).observes(r, ev) <==> old(self).observes(r, ev) || (r == role@ && ev
                    == event@),
            forall|r: Text|
                final(self).roles().contains(r) <==> old(self).roles().contains(r) || r == role@,
            forall|r: Text| r != role@ ==> final(self).of(r) == old(self).of(r),
            final(self).of(role@) == with_text(old(self).of(role@), event@),
    {
        let ghost role_text = role@;
        self.add_role(role.clone());
        assert(self.roles().contains(role_text));
        assert(self.entries.has(role_text));
        let at = self.entries.find(&role).unwrap();
        let ghost mid_keys = self.entries.keys();
        let ghost mid_values = self.entries.values();
        let mut events = self.entries.value(at).duplicate();
        events.insert(event);
        self.entries.set(at, events);
        proof {
            let new_values = self.entries.values();
            assert forall|r: Text| r != role_text && mid_keys.contains(r) implies self.entries.at(r)
                == mid_values[mid_keys.index_of(r)] by {
                let i = mid_keys.index_of(r);
                assert(mid_keys[i] == r);
            }
        }
    }

    /// The event types that `role` observes, if it has an entry.
    pub fn get(&self, role: &Role) -> (events: Option<&NameSet<EventType>>)
        requires
            self.wf(),
        ensures
            match events {
                Some(set) => set@ == self.of(role@) && set.wf() && self.roles().contains(role@),
                None => self.of(role@) == Seq::<Text>::empty() && !self.roles().contains(role@),
            },
    {
        match self.entries.find(role) {
            Some(i) => Some(self.entries.value(i)),
            None => None,
        }
    }

    /// The number of roles that have an entry.
    pub fn len(&self) -> (n: usize)
        ensures
            n == self.roles().len(),
    {
        self.entries.len()
    }

    /// The role of the entry at position `i`.
    pub fn role(&self, i: usize) -> (r: &Role)
        requires
            i < self.roles().len(),
        ensures
            r@ == self.roles()[i as int],
    {
        self.entries.key(i)
    }

    /// The event types of the entry at position `i`.
    pub fn events(&self, i: usize) -> (set: &NameSet<EventType>)
        requires
            self.wf(),
            i < self.roles().len(),
        ensures
            set@ == self.of(self.roles()[i as int]),
            set.wf(),
    {
        proof {
            lemma_sorted_index(self.entries.keys(), i as int);
        }
        self.entries.value(i)
    }
}

} // verus!
