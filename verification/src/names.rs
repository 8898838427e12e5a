//! A map keyed by name that lists its entries in ascending name order.
use crate::text::{
    precedes, precedes_irreflexive, precedes_total, precedes_transitive, text_precedes,
};
use vstd::prelude::*;

verus! {

/// Whether names stand in strictly ascending order.
pub open spec fn ascending(names: Seq<Seq<char>>) -> bool {
    forall|i: int, j: int|
        0 <= i < j < names.len() ==> precedes(#[trigger] names[i], #[trigger] names[j])
}

/// The map that pairs each name with the value at its place.
pub open spec fn paired<V>(names: Seq<Seq<char>>, values: Seq<V>) -> Map<Seq<char>, V> {
    Map::new(|n: Seq<char>| names.contains(n), |n: Seq<char>| values[names.index_of(n)])
}

/// Ascending names do not repeat, so each name finds the value at its own place.
pub proof fn paired_at<V>(names: Seq<Seq<char>>, values: Seq<V>, i: int)
    requires
        ascending(names),
        0 <= i < names.len(),
    ensures
        paired(names, values).contains_key(names[i]),
        paired(names, values)[names[i]] == values[i],
        names.index_of(names[i]) == i,
{
    let k = names.index_of(names[i]);
    assert(names.contains(names[i]));
    assert(0 <= k < names.len() && names[k] == names[i]);
    if k < i {
        assert(precedes(names[k], names[i]));
        precedes_irreflexive(names[i]);
    } else if i < k {
        assert(precedes(names[i], names[k]));
        precedes_irreflexive(names[i]);
    }
}

/// A map from names to values, kept in ascending order of names.
#[derive(Debug)]
pub struct NameMap<V> {
    entries: Vec<(String, V)>,
}

impl<V> View for NameMap<V> {
    type V = Map<Seq<char>, V>;

    open spec fn view(&self) -> Map<Seq<char>, V> {
        paired(self.names(), self.values())
    }
}

impl<V> NameMap<V> {
    /// The names, in ascending order.
    pub closed spec fn names(self) -> Seq<Seq<char>> {
        self.entries@.map_values(|e: (String, V)| e.0@)
    }

    /// The values, in the order of their names.
    pub closed spec fn values(self) -> Seq<V> {
        self.entries@.map_values(|e: (String, V)| e.1)
    }

    #[verifier::type_invariant]
    spec fn in_order(self) -> bool {
        ascending(self.names())
    }

    /// The empty map.
    pub fn new() -> (r: Self)
        ensures
            r.names() == Seq::<Seq<char>>::empty(),
            r.values() == Seq::<V>::empty(),
            r@ == Map::<Seq<char>, V>::empty(),
    {
        let r = NameMap { entries: Vec::new() };
        assert(r.names() =~= Seq::<Seq<char>>::empty());
        assert(r.values() =~= Seq::<V>::empty());
        assert(r@ =~= Map::<Seq<char>, V>::empty());
        r
    }

    /// Number of entries.
    pub fn len(&self) -> (r: usize)
        ensures
            r == self.names().len(),
            r == self.values().len(),
            ascending(self.names()),
    {
        proof {
            use_type_invariant(self);
        }
        self.entries.len()
    }

    /// The name at a place.
    pub fn name_at(&self, i: usize) -> (r: &String)
        requires
            i < self.names().len(),
        ensures
            r@ == self.names()[i as int],
    {
        &self.entries[i].0
    }

    /// The value at a place.
    pub fn value_at(&self, i: usize) -> (r: &V)
        requires
            i < self.names().len(),
        ensures
            *r == self.values()[i as int],
    {
        &self.entries[i].1
    }

    /// The first place whose name does not stand before `name`.
    fn place_of(&self, name: &str) -> (r: usize)
        ensures
            r <= self.names().len(),
            forall|i: int| 0 <= i < r ==> precedes(#[trigger] self.names()[i], name@),
            forall|i: int|
                r <= i < self.names().len() ==> !precedes(#[trigger] self.names()[i], name@),
    {
        proof {
            use_type_invariant(self);
        }
        let mut lo: usize = 0;
        let mut hi: usize = self.entries.len();
        while lo < hi
            invariant
                lo <= hi <= self.names().len(),
                self.names().len() == self.entries@.len(),
                ascending(self.names()),
                forall|i: int| 0 <= i < lo ==> precedes(#[trigger] self.names()[i], name@),
                forall|i: int|
                    hi <= i < self.names().len() ==> !precedes(#[trigger] self.names()[i], name@),
            decreases hi - lo,
        {
            let mid: usize = lo + (hi - lo) / 2;
            let before: bool = text_precedes(self.entries[mid].0.as_str(), name);
            assert(self.names()[mid as int] == self.entries@[mid as int].0@);
            if before {
                assert forall|i: int| 0 <= i < mid + 1 implies precedes(
                    #[trigger] self.names()[i],
                    name@,
                ) by {
                    if i < mid {
                        precedes_transitive(self.names()[i], self.names()[mid as int], name@);
                    }
                }
                lo = mid + 1;
            } else {
                assert forall|i: int| mid <= i < self.names().len() implies !precedes(
                    #[trigger] self.names()[i],
                    name@,
                ) by {
                    if mid < i && precedes(self.names()[i], name@) {
                        precedes_transitive(self.names()[mid as int], self.names()[i], name@);
                    }
                }
                hi = mid;
            }
        }
        lo
    }

    /// The value of a name.
    pub fn get(&self, name: &str) -> (r: Option<&V>)
        ensures
            match r {
                Some(v) => self@.contains_key(name@) && *v == self@[name@],
                None => !self@.contains_key(name@),
            },
    {
        proof {
            use_type_invariant(self);
        }
        let at: usize = self.place_of(name);
        if at < self.entries.len() && !text_precedes(name, self.entries[at].0.as_str()) {
            proof {
                assert(self.names()[at as int] == self.entries@[at as int].0@);
                precedes_total(self.names()[at as int], name@);
                paired_at(self.names(), self.values(), at as int);
            }
            Some(&self.entries[at].1)
        } else {
            assert(!self.names().contains(name@)) by {
                if self.names().contains(name@) {
                    let i = self.names().index_of(name@);
                    precedes_irreflexive(name@);
                    assert(self.names()[i] == name@);
                    assert(at <= i);
                    assert(self.names()[at as int] == self.entries@[at as int].0@);
                    if at < i {
                        assert(precedes(self.names()[at as int], self.names()[i]));
                    }
                }
            }
            None
        }
    }

    /// Gives a name a value, in place of the one it had.
    pub fn insert(&mut self, name: String, value: V)
        ensures
            final(self)@ == old(self)@.insert(name@, value),
    {
        proof {
            use_type_invariant(&*self);
        }
        let at: usize = self.place_of(name.as_str());
        let ghost names0 = self.names();
        let ghost values0 = self.values();
        let ghost key = name@;
        let same: bool = at < self.entries.len() && !text_precedes(
            name.as_str(),
            self.entries[at].0.as_str(),
        );
        let mut entries: Vec<(String, V)> = Vec::new();
        std::mem::swap(&mut entries, &mut self.entries);
        assert(names0 == entries@.map_values(|e: (String, V)| e.0@));
        assert(values0 == entries@.map_values(|e: (String, V)| e.1));
        if same {
            assert(names0[at as int] == entries@[at as int].0@);
            entries.set(at, (name, value));
        } else {
            entries.insert(at, (name, value));
        }
        let ghost names1 = entries@.map_values(|e: (String, V)| e.0@);
        let ghost values1 = entries@.map_values(|e: (String, V)| e.1);
        proof {
            if same {
                precedes_total(names0[at as int], key);
                assert(names0[at as int] == key);
                assert(names1 =~= names0);
                assert(values1 =~= values0.update(at as int, value));
                paired_at(names0, values0, at as int);
                assert forall|n: Seq<char>| names0.contains(n) && n != key implies
                    names0.index_of(n) != at by {}
                assert(paired(names1, values1) =~= paired(names0, values0).insert(key, value));
            } else {
                assert(names1 =~= names0.insert(at as int, key));
                assert(values1 =~= values0.insert(at as int, value));
                insert_keeps_order(names0, key, at as int);
                assert(names1[at as int] == key);
                paired_at(names1, values1, at as int);
                assert forall|n: Seq<char>| names1.contains(n) == (names0.contains(n) || n == key)
                    by {
                    if names0.contains(n) {
                        let i = names0.index_of(n);
                        if i < at {
                            assert(names1[i] == n);
                        } else {
                            assert(names1[i + 1] == n);
                        }
                    }
                    if names1.contains(n) && n != key {
                        let i = names1.index_of(n);
                        if i < at {
                            assert(names0[i] == n);
                        } else {
                            assert(names0[i - 1] == n);
                        }
                    }
                }
                assert forall|n: Seq<char>| names0.contains(n) && n != key implies
                    paired(names1, values1)[n] == paired(names0, values0)[n] by {
                    let i = names0.index_of(n);
                    let j = if i < at { i } else { i + 1 };
                    assert(names1[j] == n);
                    paired_at(names1, values1, j);
                }
                assert(paired(names1, values1) =~= paired(names0, values0).insert(key, value));
            }
        }
        self.entries = entries;
    }
}

impl Clone for NameMap<String> {
    fn clone(&self) -> (r: Self)
        ensures
            r.names() == self.names(),
            r.values() == self.values(),
            r@ == self@,
    {
        proof {
            use_type_invariant(self);
        }
        let mut entries: Vec<(String, String)> = Vec::new();
        for i in 0..self.entries.len()
            invariant
                entries@.len() == i,
                forall|k: int| 0 <= k < i ==> #[trigger] entries@[k] == self.entries@[k],
        {
            entries.push((self.entries[i].0.clone(), self.entries[i].1.clone()));
        }
        assert(entries@ =~= self.entries@);
        NameMap { entries }
    }
}

/// A name put where it belongs keeps the order.
proof fn insert_keeps_order(names: Seq<Seq<char>>, key: Seq<char>, at: int)
    requires
        ascending(names),
        0 <= at <= names.len(),
        forall|i: int| 0 <= i < at ==> precedes(#[trigger] names[i], key),
        forall|i: int| at <= i < names.len() ==> !precedes(#[trigger] names[i], key),
        at < names.len() ==> precedes(key, names[at]),
    ensures
        ascending(names.insert(at, key)),
{
    let out = names.insert(at, key);
    assert forall|i: int, j: int| 0 <= i < j < out.len() implies precedes(
        #[trigger] out[i],
        #[trigger] out[j],
    ) by {
        if j == at {
            assert(out[i] == names[i]);
        } else if i == at {
            assert(out[j] == names[j - 1]);
            if j - 1 > at {
                precedes_transitive(key, names[at], names[j - 1]);
            }
        } else {
            let a = if i < at { i } else { i - 1 };
            let b = if j < at { j } else { j - 1 };
            assert(precedes(names[a], names[b]));
        }
    }
}

} // verus!
