//! An ordered map from names to values, kept as a list sorted by name.

use vstd::prelude::*;
use crate::name::{lemma_lt_irreflexive, lemma_lt_transitive, name_lt, name_order, Order};

verus! {

/// A map from names to values. The entries stand in strictly rising order of
/// their names, so no name occurs twice and the first entry has the least
/// name.
#[derive(Debug, PartialEq, Eq)]
pub struct NameMap<V> {
    pub names: Vec<Vec<u8>>,
    pub values: Vec<V>,
}

/// The names rise strictly from each place to every later one.
pub open spec fn strictly_sorted(names: Seq<Vec<u8>>) -> bool {
    forall|i: int, j: int| 0 <= i < j < names.len() ==> name_lt(#[trigger] names[i]@, #[trigger] names[j]@)
}

/// The least place at which `name` stands in `names`, or the length of
/// `names` where it stands nowhere.
pub open spec fn find(names: Seq<Vec<u8>>, name: Seq<u8>) -> int
    decreases names.len(),
{
    if names.len() == 0 {
        0
    } else if names[0]@ == name {
        0
    } else {
        1 + find(names.skip(1), name)
    }
}

/// `find` answers with a place that holds the name, or with the length when
/// no place does.
pub proof fn lemma_find(names: Seq<Vec<u8>>, name: Seq<u8>)
    ensures
        0 <= find(names, name) <= names.len(),
        find(names, name) < names.len() ==> names[find(names, name)]@ == name,
        forall|i: int| 0 <= i < find(names, name) ==> names[i]@ != name,
    decreases names.len(),
{
    if names.len() != 0 && names[0]@ != name {
        let rest = names.skip(1);
        lemma_find(rest, name);
        assert forall|i: int| 0 <= i < find(names, name) implies names[i]@ != name by {
            if i > 0 {
                assert(rest[i - 1] == names[i]);
            }
        }
    }
}

/// Where a name stands at place `i`, and nowhere before it, `find` gives `i`.
pub proof fn lemma_find_at(names: Seq<Vec<u8>>, name: Seq<u8>, i: int)
    requires
        0 <= i < names.len(),
        names[i]@ == name,
        forall|j: int| 0 <= j < i ==> names[j]@ != name,
    ensures
        find(names, name) == i,
{
    lemma_find(names, name);
}

/// In a sorted list each name stands at one place only.
pub proof fn lemma_sorted_unique(names: Seq<Vec<u8>>, i: int, j: int)
    requires
        strictly_sorted(names),
        0 <= i < names.len(),
        0 <= j < names.len(),
        names[i]@ == names[j]@,
    ensures
        i == j,
{
    lemma_lt_irreflexive(names[i]@);
}

/// In a sorted list `find` gives the place of each name that is there.
pub proof fn lemma_find_sorted(names: Seq<Vec<u8>>, i: int)
    requires
        strictly_sorted(names),
        0 <= i < names.len(),
    ensures
        find(names, names[i]@) == i,
{
    lemma_find(names, names[i]@);
    lemma_sorted_unique(names, i, find(names, names[i]@));
}

impl<V> NameMap<V> {
    /// Names and values pair up, and the names rise strictly.
    pub open spec fn wf(&self) -> bool {
        &&& self.names.len() == self.values.len()
        &&& strictly_sorted(self.names@)
    }

    /// Whether the map has an entry for `name`.
    pub open spec fn has(&self, name: Seq<u8>) -> bool {
        find(self.names@, name) < self.names@.len()
    }

    /// The place of the entry for `name`.
    pub open spec fn place(&self, name: Seq<u8>) -> int {
        find(self.names@, name)
    }

    /// The value that the map holds for `name`.
    pub open spec fn value(&self, name: Seq<u8>) -> V
        recommends
            self.has(name),
    {
        self.values@[find(self.names@, name)]
    }

    /// The map as a mathematical map from names to values.
    pub open spec fn view(&self) -> Map<Seq<u8>, V> {
        map_of(self.names@, self.values@)
    }

    /// The set of names that have an entry.
    pub open spec fn dom(&self) -> Set<Seq<u8>> {
        Set::new(|n: Seq<u8>| self.has(n))
    }

    /// A map with no entries.
    pub fn new() -> (r: Self)
        ensures
            r.wf(),
            r.names@.len() == 0,
            r@ == Map::<Seq<u8>, V>::empty(),
    {
        let r = NameMap { names: Vec::new(), values: Vec::new() };
        proof {
            assert(r@ =~= Map::<Seq<u8>, V>::empty());
        }
        r
    }

    /// The number of entries.
    pub fn len(&self) -> (r: usize)
        requires
            self.wf(),
        ensures
            r == self.names.len(),
    {
        self.names.len()
    }

    /// The place at which `name` stands, or where it would have to be put.
    pub fn search(&self, name: &Vec<u8>) -> (r: (usize, bool))
        requires
            self.wf(),
        ensures
            r.0 <= self.names.len(),
            r.1 == self.has(name@),
            r.1 ==> r.0 == self.place(name@) && self.names@[r.0 as int]@ == name@,
            forall|i: int| 0 <= i < r.0 ==> name_lt(#[trigger] self.names@[i]@, name@),
            forall|i: int| r.0 + (if r.1 { 1int } else { 0int }) <= i < self.names.len() ==> name_lt(name@, #[trigger] self.names@[i]@),
    {
        let mut i: usize = 0;
        while i < self.names.len()
            invariant
                self.wf(),
                i <= self.names.len(),
                forall|k: int| 0 <= k < i ==> name_lt(#[trigger] self.names@[k]@, name@),
            decreases self.names.len() - i,
        {
            match name_order(&self.names[i], name) {
                Order::Less => {},
                Order::Equal => {
                    proof {
                        assert forall|k: int| 0 <= k < i implies self.names@[k]@ != name@ by {
                            lemma_lt_irreflexive(name@);
                        }
                        lemma_find_at(self.names@, name@, i as int);
                    }
                    return (i, true);
                },
                Order::Greater => {
                    proof {
                        assert forall|k: int| i <= k < self.names.len() implies name_lt(name@, #[trigger] self.names@[k]@) by {
                            if k > i {
                                lemma_lt_transitive(name@, self.names@[i as int]@, self.names@[k]@);
                            }
                        }
                        self.lemma_absent(name@, i as int);
                    }
                    return (i, false);
                },
            }
            i += 1;
        }
        proof {
            self.lemma_absent(name@, i as int);
        }
        (i, false)
    }

    /// A name that lies strictly between the entries before place `p` and
    /// those from `p` on has no entry.
    pub proof fn lemma_absent(&self, name: Seq<u8>, p: int)
        requires
            0 <= p <= self.names.len(),
            forall|i: int| 0 <= i < p ==> name_lt(#[trigger] self.names@[i]@, name),
            forall|i: int| p <= i < self.names.len() ==> name_lt(name, #[trigger] self.names@[i]@),
        ensures
            !self.has(name),
    {
        lemma_find(self.names@, name);
        lemma_lt_irreflexive(name);
    }

    /// Whether names and values pair up and the names rise strictly: whether
    /// the map is well formed.
    pub fn is_sorted(&self) -> (r: bool)
        ensures
            r == self.wf(),
    {
        if self.names.len() != self.values.len() {
            return false;
        }
        let mut i: usize = 1;
        while i < self.names.len()
            invariant
                1 <= i,
                forall|a: int, b: int| 0 <= a < b < i && b < self.names.len() ==> name_lt(
                    #[trigger] self.names@[a]@,
                    #[trigger] self.names@[b]@,
                ),
            decreases self.names.len() - i,
        {
            let order = name_order(&self.names[i - 1], &self.names[i]);
            match order {
                Order::Less => {
                    proof {
                        assert forall|a: int, b: int| 0 <= a < b < i + 1 implies name_lt(
                            #[trigger] self.names@[a]@,
                            #[trigger] self.names@[b]@,
                        ) by {
                            if b == i && a < i - 1 {
                                lemma_lt_transitive(self.names@[a]@, self.names@[i - 1]@, self.names@[i as int]@);
                            }
                        }
                    }
                },
                _ => {
                    proof {
                        if strictly_sorted(self.names@) {
                            assert(name_lt(self.names@[i - 1]@, self.names@[i as int]@));
                            if order == Order::Greater {
                                crate::name::lemma_lt_asymmetric(self.names@[i as int]@, self.names@[i - 1]@);
                            } else {
                                lemma_lt_irreflexive(self.names@[i as int]@);
                            }
                        }
                    }
                    return false;
                },
            }
            i += 1;
        }
        true
    }

    /// Whether the map has an entry for `name`.
    pub fn contains_key(&self, name: &Vec<u8>) -> (r: bool)
        requires
            self.wf(),
        ensures
            r == self@.contains_key(name@),
    {
        let (_, found) = self.search(name);
        found
    }

    /// The value held for `name`, if there is one.
    pub fn get(&self, name: &Vec<u8>) -> (r: Option<&V>)
        requires
            self.wf(),
        ensures
            r is Some <==> self@.contains_key(name@),
            r is Some ==> *r->0 == self@[name@],
    {
        let (i, found) = self.search(name);
        if found {
            Some(&self.values[i])
        } else {
            None
        }
    }

    /// Puts `value` under `name` where the name has no entry yet, and hands
    /// the value back where it has one.
    pub fn insert_new(&mut self, name: Vec<u8>, value: V) -> (r: Option<V>)
        requires
            old(self).wf(),
        ensures
            final(self).wf(),
            r is Some <==> old(self)@.contains_key(name@),
            r is Some ==> r->0 == value && *final(self) == *old(self),
            r is None ==> final(self)@ == old(self)@.insert(name@, value),
            r is None ==> final(self).dom() == old(self).dom().insert(name@),
            r is Some ==> old(self).has(name@),
            r is None ==> !old(self).has(name@),
            r is None ==> 0 <= old(self).place_for(name@) <= old(self).names.len(),
            r is None ==> forall|i: int|
                0 <= i < old(self).place_for(name@) ==> name_lt(#[trigger] old(self).names@[i]@, name@),
            r is None ==> forall|i: int|
                old(self).place_for(name@) <= i < old(self).names.len() ==> name_lt(
                    name@,
                    #[trigger] old(self).names@[i]@,
                ),
            r is None ==> final(self).names@ == old(self).names@.insert(old(self).place_for(name@), name),
            r is None ==> final(self).values@ == old(self).values@.insert(old(self).place_for(name@), value),
    {
        let (p, found) = self.search(&name);
        if found {
            return Some(value);
        }
        proof {
            self.lemma_place_for(name@, p as int);
            self.lemma_insert_view(name, value, p as int);
        }
        let ghost before = *self;
        self.names.insert(p, name);
        self.values.insert(p, value);
        proof {
            assert forall|n: Seq<u8>| self.has(n) == (n == name@ || before.has(n)) by {
                lemma_find_shift(before.names@, name, p as int, n);
            }
            assert(self.dom() =~= before.dom().insert(name@));
        }
        None
    }

    /// The place at which an entry for the absent name `name` is put: the
    /// number of entries whose names come before it.
    pub open spec fn place_for(&self, name: Seq<u8>) -> int {
        lower_count(self.names@, name)
    }

    /// In a sorted list the place for an absent name is where the names
    /// before it end.
    pub proof fn lemma_place_for(&self, name: Seq<u8>, p: int)
        requires
            self.wf(),
            0 <= p <= self.names.len(),
            forall|i: int| 0 <= i < p ==> name_lt(#[trigger] self.names@[i]@, name),
            forall|i: int| p <= i < self.names.len() ==> name_lt(name, #[trigger] self.names@[i]@),
        ensures
            self.place_for(name) == p,
    {
        lemma_lower_count(self.names@, name, p);
    }

    /// Putting an absent name at its place keeps the list sorted and adds
    /// one entry to the map.
    pub proof fn lemma_insert_view(&self, name: Vec<u8>, value: V, p: int)
        requires
            self.wf(),
            0 <= p <= self.names.len(),
            forall|i: int| 0 <= i < p ==> name_lt(#[trigger] self.names@[i]@, name@),
            forall|i: int| p <= i < self.names.len() ==> name_lt(name@, #[trigger] self.names@[i]@),
        ensures
            strictly_sorted(self.names@.insert(p, name)),
            map_of(self.names@.insert(p, name), self.values@.insert(p, value)) == self@.insert(name@, value),
    {
        let names2 = self.names@.insert(p, name);
        let values2 = self.values@.insert(p, value);
        lemma_find_insert(self.names@, name, p);
        assert forall|n: Seq<u8>| find(names2, n) < names2.len() implies values2[#[trigger] find(names2, n)] == (if n == name@ {
            value
        } else {
            self.value(n)
        }) by {
            lemma_find_shift(self.names@, name, p, n);
        }
        assert forall|n: Seq<u8>| (#[trigger] find(names2, n) < names2.len()) == (n == name@ || self.has(n)) by {
            lemma_find_shift(self.names@, name, p, n);
        }
        assert(map_of(names2, values2) =~= self@.insert(name@, value));
    }
}

/// A sorted list stays sorted when a name is put between the names that come
/// before it and those that come after it.
pub proof fn lemma_find_insert(names: Seq<Vec<u8>>, name: Vec<u8>, p: int)
    requires
        strictly_sorted(names),
        0 <= p <= names.len(),
        forall|i: int| 0 <= i < p ==> name_lt(#[trigger] names[i]@, name@),
        forall|i: int| p <= i < names.len() ==> name_lt(name@, #[trigger] names[i]@),
    ensures
        strictly_sorted(names.insert(p, name)),
        find(names.insert(p, name), name@) == p,
        find(names, name@) == names.len(),
{
    let names2 = names.insert(p, name);
    assert forall|i: int, j: int| 0 <= i < j < names2.len() implies name_lt(#[trigger] names2[i]@, #[trigger] names2[j]@) by {
        if i < p && j > p {
            assert(names2[i] == names[i]);
            assert(names2[j] == names[j - 1]);
            lemma_lt_transitive(names[i]@, name@, names[j - 1]@);
        } else if i < p && j < p {
            assert(names2[i] == names[i]);
            assert(names2[j] == names[j]);
        } else if i > p {
            assert(names2[i] == names[i - 1]);
            assert(names2[j] == names[j - 1]);
        } else if i == p {
            assert(names2[j] == names[j - 1]);
        } else {
            assert(names2[i] == names[i]);
        }
    }
    lemma_find_sorted(names2, p);
    lemma_find(names, name@);
    lemma_lt_irreflexive(name@);
}

/// Where a name is put at place `p` of a sorted list, every other name
/// keeps its place before `p` and moves up by one from `p` on.
pub proof fn lemma_find_shift(names: Seq<Vec<u8>>, name: Vec<u8>, p: int, n: Seq<u8>)
    requires
        strictly_sorted(names),
        0 <= p <= names.len(),
        forall|i: int| 0 <= i < p ==> name_lt(#[trigger] names[i]@, name@),
        forall|i: int| p <= i < names.len() ==> name_lt(name@, #[trigger] names[i]@),
    ensures
        0 <= find(names, n) <= names.len(),
        n == name@ ==> find(names.insert(p, name), n) == p,
        n != name@ && find(names, n) < p ==> find(names.insert(p, name), n) == find(names, n),
        n != name@ && p <= find(names, n) ==> find(names.insert(p, name), n) == find(names, n) + 1,
{
    let names2 = names.insert(p, name);
    lemma_find_insert(names, name, p);
    lemma_find(names2, n);
    lemma_find(names, n);
    if n != name@ {
        let i = find(names, n);
        let i2 = find(names2, n);
        if i < names.len() {
            let j = if i < p { i } else { i + 1 };
            assert(names2[j] == names[i]);
            lemma_sorted_unique(names2, j, i2);
        } else if i2 < names2.len() {
            let j = if i2 < p { i2 } else { i2 - 1 };
            assert(names2[i2] == names[j]);
        }
    }
}

/// Where the name at place `p` is taken out of a sorted list, the list
/// stays sorted, that name is gone, and every other name keeps its place
/// before `p` and moves down by one after it.
pub proof fn lemma_find_remove(names: Seq<Vec<u8>>, p: int, n: Seq<u8>)
    requires
        strictly_sorted(names),
        0 <= p < names.len(),
    ensures
        strictly_sorted(names.remove(p)),
        0 <= find(names, n) <= names.len(),
        n == names[p]@ ==> find(names.remove(p), n) == names.len() - 1,
        n != names[p]@ && find(names, n) < p ==> find(names.remove(p), n) == find(names, n),
        n != names[p]@ && find(names, n) >= p ==> find(names.remove(p), n) == find(names, n) - 1,
{
    let names2 = names.remove(p);
    assert forall|i: int, j: int| 0 <= i < j < names2.len() implies name_lt(
        #[trigger] names2[i]@,
        #[trigger] names2[j]@,
    ) by {
        let i0 = if i < p { i } else { i + 1 };
        let j0 = if j < p { j } else { j + 1 };
        assert(names2[i] == names[i0]);
        assert(names2[j] == names[j0]);
    }
    lemma_find(names, n);
    lemma_find(names2, n);
    let i = find(names, n);
    let i2 = find(names2, n);
    if i2 < names2.len() {
        let j = if i2 < p { i2 } else { i2 + 1 };
        assert(names2[i2] == names[j]);
        lemma_sorted_unique(names, j, i);
        if n == names[p]@ {
            lemma_sorted_unique(names, j, p);
        }
    } else if i < names.len() && i != p {
        let j = if i < p { i } else { i - 1 };
        assert(names2[j] == names[i]);
    }
    if n == names[p]@ {
        lemma_find_sorted(names, p);
    }
}

/// Two sorted lists that hold the same names hold them at the same
/// places.
pub proof fn lemma_sorted_same(a: Seq<Vec<u8>>, b: Seq<Vec<u8>>)
    requires
        strictly_sorted(a),
        strictly_sorted(b),
        forall|n: Seq<u8>| (find(a, n) < a.len()) == (find(b, n) < b.len()),
    ensures
        a.len() == b.len(),
        forall|i: int| 0 <= i < a.len() ==> (#[trigger] a[i])@ == b[i]@,
    decreases a.len(),
{
    if a.len() == 0 {
        if b.len() > 0 {
            lemma_find_sorted(b, 0);
            lemma_find(a, b[0]@);
            assert((find(a, b[0]@) < a.len()) == (find(b, b[0]@) < b.len()));
        }
    } else if b.len() == 0 {
        lemma_find_sorted(a, 0);
        lemma_find(b, a[0]@);
        assert((find(a, a[0]@) < a.len()) == (find(b, a[0]@) < b.len()));
    } else {
        let x = a.last()@;
        let y = b.last()@;
        let la = a.len() - 1;
        let lb = b.len() - 1;
        lemma_find_sorted(a, la);
        lemma_find_sorted(b, lb);
        lemma_find(b, x);
        lemma_find(a, y);
        assert((find(a, x) < a.len()) == (find(b, x) < b.len()));
        assert((find(a, y) < a.len()) == (find(b, y) < b.len()));
        let j = find(b, x);
        let i = find(a, y);
        if j < lb {
            assert(name_lt(b[j]@, b[lb]@));
            if i < la {
                assert(name_lt(a[i]@, a[la]@));
                lemma_lt_transitive(x, y, x);
            }
            lemma_lt_irreflexive(x);
        }
        assert(x == y);
        let a2 = a.drop_last();
        let b2 = b.drop_last();
        assert(a2 =~= a.remove(la));
        assert(b2 =~= b.remove(lb));
        assert forall|n: Seq<u8>| (find(a2, n) < a2.len()) == (find(b2, n) < b2.len()) by {
            lemma_find_remove(a, la, n);
            lemma_find_remove(b, lb, n);
            assert((find(a, n) < a.len()) == (find(b, n) < b.len()));
        }
        lemma_find_remove(a, la, x);
        lemma_find_remove(b, lb, x);
        lemma_sorted_same(a2, b2);
        assert forall|k: int| 0 <= k < a.len() implies (#[trigger] a[k])@ == b[k]@ by {
            if k < la {
                assert(a2[k] == a[k]);
                assert(b2[k] == b[k]);
            }
        }
    }
}

/// The map that pairs each name of `names` with the value at the same place
/// of `values`; of a name that stands twice the first place counts.
pub open spec fn map_of<V>(names: Seq<Vec<u8>>, values: Seq<V>) -> Map<Seq<u8>, V> {
    Map::new(|n: Seq<u8>| find(names, n) < names.len(), |n: Seq<u8>| values[find(names, n)])
}

/// The number of names in `names` that come before `name`.
pub open spec fn lower_count(names: Seq<Vec<u8>>, name: Seq<u8>) -> int
    decreases names.len(),
{
    if names.len() == 0 {
        0
    } else {
        (if name_lt(names.last()@, name) { 1int } else { 0int }) + lower_count(names.drop_last(), name)
    }
}

/// Where exactly the first `p` names come before `name`, the count is `p`.
pub proof fn lemma_lower_count(names: Seq<Vec<u8>>, name: Seq<u8>, p: int)
    requires
        0 <= p <= names.len(),
        forall|i: int| 0 <= i < p ==> name_lt(#[trigger] names[i]@, name),
        forall|i: int| p <= i < names.len() ==> name_lt(name, #[trigger] names[i]@),
    ensures
        lower_count(names, name) == p,
    decreases names.len(),
{
    if names.len() != 0 {
        let rest = names.drop_last();
        if p == names.len() {
            lemma_lower_count(rest, name, p - 1);
        } else {
            crate::name::lemma_lt_asymmetric(name, names.last()@);
            lemma_lower_count(rest, name, p);
        }
    }
}

} // verus!
