//! Sets of strings and maps from strings to strings.
//!
//! Both keep their contents in lexicographic order of the keys, each key
//! once. Two sets, or two maps, that hold the same contents are therefore
//! equal field by field, and walking one always yields the same order.

use vstd::prelude::*;
use crate::order::{
    lemma_lex_asymmetric, lemma_lex_irreflexive, lemma_lex_transitive, lex_lt, place, strictly_sorted,
    Place,
};
use crate::text::views;

verus! {

/// Where `k` stands, or would stand, among the sorted strings `items`:
/// every element before the index comes before `k`, and the flag tells
/// whether the element at the index is `k` itself.
pub fn find_slot(items: &Vec<String>, k: &str) -> (r: (usize, bool))
    ensures
        r.0 <= items.len(),
        forall|j: int| 0 <= j < r.0 ==> lex_lt(#[trigger] views(items@)[j], k@),
        r.1 ==> r.0 < items.len() && views(items@)[r.0 as int] == k@,
        !r.1 && r.0 < items.len() ==> lex_lt(k@, views(items@)[r.0 as int]),
{
    let n = items.len();
    let mut p: usize = 0;
    while p < n
        invariant
            n == items.len(),
            p <= n,
            forall|j: int| 0 <= j < p ==> lex_lt(#[trigger] views(items@)[j], k@),
        decreases n - p,
    {
        match place(items[p].as_str(), k) {
            Place::Before => {
                p += 1;
            },
            Place::Same => {
                return (p, true);
            },
            Place::After => {
                return (p, false);
            },
        }
    }
    (p, false)
}

/// In a strictly sorted sequence no element occurs twice.
pub proof fn lemma_strictly_sorted_distinct(v: Seq<Seq<char>>)
    requires
        strictly_sorted(v),
    ensures
        forall|i: int, j: int| 0 <= i < v.len() && 0 <= j < v.len() && i != j ==> #[trigger] v[i]
            != #[trigger] v[j],
{
    assert forall|i: int, j: int| 0 <= i < v.len() && 0 <= j < v.len() && i != j implies #[trigger] v[i]
        != #[trigger] v[j] by {
        lemma_lex_irreflexive(v[i]);
        if i < j {
            assert(lex_lt(v[i], v[j]));
        } else {
            assert(lex_lt(v[j], v[i]));
        }
    }
}

/// If every element before `p` comes before `x` and the element at `p`, if
/// there is one, comes after it, then `x` is no element of the strictly
/// sorted `v`.
pub proof fn lemma_slot_absent(v: Seq<Seq<char>>, p: int, x: Seq<char>)
    requires
        strictly_sorted(v),
        0 <= p <= v.len(),
        forall|j: int| 0 <= j < p ==> lex_lt(#[trigger] v[j], x),
        p < v.len() ==> lex_lt(x, v[p]),
    ensures
        !v.contains(x),
{
    if v.contains(x) {
        let i = choose|i: int| 0 <= i < v.len() && v[i] == x;
        lemma_lex_irreflexive(x);
        if i < p {
            assert(lex_lt(v[i], x));
        } else if i > p {
            assert(lex_lt(v[p], v[i]));
            lemma_lex_asymmetric(x, v[p]);
        }
    }
}

/// Putting `x` at such a place `p` keeps `v` strictly sorted.
pub proof fn lemma_insert_strictly_sorted(v: Seq<Seq<char>>, p: int, x: Seq<char>)
    requires
        strictly_sorted(v),
        0 <= p <= v.len(),
        forall|j: int| 0 <= j < p ==> lex_lt(#[trigger] v[j], x),
        p < v.len() ==> lex_lt(x, v[p]),
    ensures
        strictly_sorted(v.insert(p, x)),
{
    let w = v.insert(p, x);
    assert forall|i: int, j: int| 0 <= i < j < w.len() implies lex_lt(
        #[trigger] w[i],
        #[trigger] w[j],
    ) by {
        if j < p {
        } else if j == p {
        } else if i < p {
            assert(w[j] == v[j - 1]);
        } else if i == p {
            assert(w[j] == v[j - 1]);
            if j - 1 > p {
                lemma_lex_transitive(x, v[p], v[j - 1]);
            }
        } else {
            assert(w[i] == v[i - 1]);
            assert(w[j] == v[j - 1]);
        }
    }
}

/// Two strictly sorted sequences with the same elements are equal.
pub proof fn lemma_sorted_unique(a: Seq<Seq<char>>, b: Seq<Seq<char>>)
    requires
        strictly_sorted(a),
        strictly_sorted(b),
        forall|x: Seq<char>| a.contains(x) <==> b.contains(x),
    ensures
        a == b,
    decreases a.len(),
{
    if a.len() == 0 {
        if b.len() > 0 {
            assert(b.contains(b[0]));
        }
        assert(a =~= b);
    } else if b.len() == 0 {
        assert(a.contains(a[0]));
    } else {
        // the two least elements are the same
        assert(a.contains(a[0]));
        assert(b.contains(b[0]));
        let i = choose|i: int| 0 <= i < b.len() && b[i] == a[0];
        let j = choose|j: int| 0 <= j < a.len() && a[j] == b[0];
        if i > 0 && j > 0 {
            assert(lex_lt(b[0], b[i]));
            assert(lex_lt(a[0], a[j]));
            lemma_lex_asymmetric(a[0], b[0]);
        }
        lemma_lex_irreflexive(a[0]);
        if i > 0 {
            assert(lex_lt(b[0], b[i]));
        }
        if j > 0 {
            assert(lex_lt(a[0], a[j]));
        }
        assert(a[0] == b[0]);
        let ra = a.drop_first();
        let rb = b.drop_first();
        assert forall|x: Seq<char>| ra.contains(x) <==> rb.contains(x) by {
            lemma_strictly_sorted_distinct(a);
            lemma_strictly_sorted_distinct(b);
            if ra.contains(x) {
                let k = choose|k: int| 0 <= k < ra.len() && ra[k] == x;
                assert(a[k + 1] == x);
                assert(a.contains(x));
                let m = choose|m: int| 0 <= m < b.len() && b[m] == x;
                assert(m != 0);
                assert(rb[m - 1] == x);
            }
            if rb.contains(x) {
                let k = choose|k: int| 0 <= k < rb.len() && rb[k] == x;
                assert(b[k + 1] == x);
                assert(b.contains(x));
                let m = choose|m: int| 0 <= m < a.len() && a[m] == x;
                assert(m != 0);
                assert(ra[m - 1] == x);
            }
        }
        assert(strictly_sorted(ra)) by {
            assert forall|i: int, j: int| 0 <= i < j < ra.len() implies lex_lt(
                #[trigger] ra[i],
                #[trigger] ra[j],
            ) by {
                assert(lex_lt(a[i + 1], a[j + 1]));
            }
        }
        assert(strictly_sorted(rb)) by {
            assert forall|i: int, j: int| 0 <= i < j < rb.len() implies lex_lt(
                #[trigger] rb[i],
                #[trigger] rb[j],
            ) by {
                assert(lex_lt(b[i + 1], b[j + 1]));
            }
        }
        lemma_sorted_unique(ra, rb);
        assert(a =~= seq![a[0]] + ra);
        assert(b =~= seq![b[0]] + rb);
    }
}

/// `v` lists the elements of `s` in strictly ascending order.
pub open spec fn lists(v: Seq<Seq<char>>, s: Set<Seq<char>>) -> bool {
    strictly_sorted(v) && forall|x: Seq<char>| v.contains(x) <==> s.contains(x)
}

/// The elements of the finite set `s` in lexicographic order.
pub open spec fn sorted_elems(s: Set<Seq<char>>) -> Seq<Seq<char>> {
    choose|v: Seq<Seq<char>>| lists(v, s)
}

/// A set has one list of its elements in order, and no other.
pub proof fn lemma_sorted_elems(s: Set<Seq<char>>, v: Seq<Seq<char>>)
    requires
        lists(v, s),
    ensures
        sorted_elems(s) == v,
{
    let w = sorted_elems(s);
    assert(lists(w, s));
    lemma_sorted_unique(w, v);
}

/// A set of strings.
#[derive(Debug, PartialEq, Eq)]
pub struct StringSet {
    items: Vec<String>,
}

impl View for StringSet {
    type V = Set<Seq<char>>;

    closed spec fn view(&self) -> Set<Seq<char>> {
        views(self.items@).to_set()
    }
}

impl StringSet {
    /// The elements in lexicographic order.
    pub closed spec fn elems(&self) -> Seq<Seq<char>> {
        views(self.items@)
    }

    /// The elements stand in strictly ascending order.
    #[verifier::type_invariant]
    pub closed spec fn wf(&self) -> bool {
        strictly_sorted(views(self.items@))
    }

    /// How the set and the sequence of its elements belong together.
    pub proof fn lemma_elems(&self)
        requires
            self.wf(),
        ensures
            strictly_sorted(self.elems()),
            self@.finite(),
            self@.len() == self.elems().len(),
            forall|k: Seq<char>| self@.contains(k) <==> self.elems().contains(k),
            self.elems() == sorted_elems(self@),
    {
        lemma_strictly_sorted_distinct(self.elems());
        self.elems().unique_seq_to_set();
        lemma_sorted_elems(self@, self.elems());
    }

    /// The empty set.
    pub fn new() -> (r: StringSet)
        ensures
            r@ == Set::<Seq<char>>::empty(),
            r.elems() == Seq::<Seq<char>>::empty(),
            r.wf(),
    {
        let r = StringSet { items: Vec::new() };
        proof {
            assert(views(r.items@) =~= Seq::<Seq<char>>::empty());
            assert(r@ =~= Set::<Seq<char>>::empty());
        }
        r
    }

    /// The number of elements.
    pub fn len(&self) -> (n: usize)
        ensures
            n == self.elems().len(),
            n == self@.len(),
    {
        proof {
            use_type_invariant(self);
            self.lemma_elems();
        }
        self.items.len()
    }

    /// Whether `k` is an element.
    pub fn contains(&self, k: &str) -> (r: bool)
        ensures
            r == self@.contains(k@),
    {
        proof {
            use_type_invariant(self);
        }
        let (p, found) = find_slot(&self.items, k);
        proof {
            if !found {
                lemma_slot_absent(views(self.items@), p as int, k@);
            } else {
                assert(views(self.items@).contains(k@));
            }
        }
        found
    }

    /// Adds `k`; tells whether it was new.
    pub fn insert(&mut self, k: String) -> (r: bool)
        ensures
            final(self)@ == old(self)@.insert(k@),
            r == !old(self)@.contains(k@),
            final(self).wf(),
    {
        proof {
            use_type_invariant(&*self);
        }
        let (p, found) = find_slot(&self.items, k.as_str());
        if found {
            proof {
                assert(views(self.items@).contains(k@));
                assert(self@ =~= self@.insert(k@));
            }
            false
        } else {
            proof {
                let before = views(self.items@);
                lemma_slot_absent(before, p as int, k@);
                lemma_insert_strictly_sorted(before, p as int, k@);
                assert(views(self.items@.insert(p as int, k)) =~= before.insert(p as int, k@));
                assert(before.insert(p as int, k@).to_set() =~= before.to_set().insert(k@)) by {
                    let after = before.insert(p as int, k@);
                    assert forall|x: Seq<char>| after.to_set().contains(x) <==> before.to_set().insert(
                        k@,
                    ).contains(x) by {
                        if after.contains(x) {
                            let i = choose|i: int| 0 <= i < after.len() && after[i] == x;
                            if i < p {
                                assert(before[i] == x);
                            } else if i > p {
                                assert(before[i - 1] == x);
                            }
                        }
                        if before.contains(x) {
                            let i = choose|i: int| 0 <= i < before.len() && before[i] == x;
                            if i < p {
                                assert(after[i] == x);
                            } else {
                                assert(after[i + 1] == x);
                            }
                        }
                        if x == k@ {
                            assert(after[p as int] == x);
                        }
                    }
                }
            }
            let mut items: Vec<String> = Vec::new();
            core::mem::swap(&mut self.items, &mut items);
            items.insert(p, k);
            self.items = items;
            true
        }
    }

    /// The elements in lexicographic order.
    pub fn items(&self) -> (r: &Vec<String>)
        ensures
            views(r@) == self.elems(),
            views(r@) == sorted_elems(self@),
            lists(views(r@), self@),
    {
        proof {
            use_type_invariant(self);
            self.lemma_elems();
        }
        &self.items
    }
}

/// The keys of `entries`, in order.
pub open spec fn keys_of(entries: Seq<(String, String)>) -> Seq<Seq<char>> {
    Seq::new(entries.len(), |i: int| entries[i].0@)
}

/// The values of `entries`, in order.
pub open spec fn vals_of(entries: Seq<(String, String)>) -> Seq<Seq<char>> {
    Seq::new(entries.len(), |i: int| entries[i].1@)
}

/// The map that holds `vals[i]` under `keys[i]`.
pub open spec fn map_of(keys: Seq<Seq<char>>, vals: Seq<Seq<char>>) -> Map<Seq<char>, Seq<char>> {
    Map::new(|k: Seq<char>| keys.contains(k), |k: Seq<char>| vals[keys.index_of(k)])
}

/// In a strictly sorted sequence an element is found at its own index.
pub proof fn lemma_index_of_sorted(v: Seq<Seq<char>>, i: int)
    requires
        strictly_sorted(v),
        0 <= i < v.len(),
    ensures
        v.contains(v[i]),
        v.index_of(v[i]) == i,
{
    lemma_strictly_sorted_distinct(v);
    assert(v.contains(v[i]));
    let j = v.index_of(v[i]);
    assert(0 <= j < v.len() && v[j] == v[i]);
}

/// What `map_of` holds after a new key went in at `p`.
pub proof fn lemma_map_of_insert(
    keys: Seq<Seq<char>>,
    vals: Seq<Seq<char>>,
    p: int,
    k: Seq<char>,
    x: Seq<char>,
)
    requires
        strictly_sorted(keys),
        strictly_sorted(keys.insert(p, k)),
        keys.len() == vals.len(),
        0 <= p <= keys.len(),
        !keys.contains(k),
    ensures
        map_of(keys.insert(p, k), vals.insert(p, x)) == map_of(keys, vals).insert(k, x),
{
    let keys2 = keys.insert(p, k);
    let vals2 = vals.insert(p, x);
    let m = map_of(keys, vals);
    let m2 = map_of(keys2, vals2);
    assert forall|y: Seq<char>| m2.dom().contains(y) <==> m.insert(k, x).dom().contains(y) by {
        if keys2.contains(y) {
            let i = choose|i: int| 0 <= i < keys2.len() && keys2[i] == y;
            if i < p {
                assert(keys[i] == y);
            } else if i > p {
                assert(keys[i - 1] == y);
            }
        }
        if keys.contains(y) {
            let i = choose|i: int| 0 <= i < keys.len() && keys[i] == y;
            if i < p {
                assert(keys2[i] == y);
            } else {
                assert(keys2[i + 1] == y);
            }
        }
        if y == k {
            assert(keys2[p] == y);
        }
    }
    assert forall|y: Seq<char>| m2.dom().contains(y) implies m2[y] == m.insert(k, x)[y] by {
        let i = keys2.index_of(y);
        assert(0 <= i < keys2.len() && keys2[i] == y);
        if i == p {
        } else if i < p {
            assert(keys[i] == y);
            lemma_index_of_sorted(keys, i);
        } else {
            assert(keys[i - 1] == y);
            lemma_index_of_sorted(keys, i - 1);
        }
    }
    assert(m2 =~= m.insert(k, x));
}

/// What `map_of` holds after the value at `p` was replaced.
pub proof fn lemma_map_of_update(keys: Seq<Seq<char>>, vals: Seq<Seq<char>>, p: int, x: Seq<char>)
    requires
        strictly_sorted(keys),
        keys.len() == vals.len(),
        0 <= p < keys.len(),
    ensures
        map_of(keys, vals.update(p, x)) == map_of(keys, vals).insert(keys[p], x),
{
    let vals2 = vals.update(p, x);
    let m = map_of(keys, vals);
    let m2 = map_of(keys, vals2);
    assert(keys.contains(keys[p]));
    assert forall|y: Seq<char>| m2.dom().contains(y) implies m2[y] == m.insert(keys[p], x)[y] by {
        let i = keys.index_of(y);
        assert(0 <= i < keys.len() && keys[i] == y);
        lemma_index_of_sorted(keys, p);
        lemma_strictly_sorted_distinct(keys);
    }
    assert(m2 =~= m.insert(keys[p], x));
}

/// Where the key `k` stands, or would stand, among the sorted `entries`.
pub fn find_entry(entries: &Vec<(String, String)>, k: &str) -> (r: (usize, bool))
    ensures
        r.0 <= entries.len(),
        forall|j: int| 0 <= j < r.0 ==> lex_lt(#[trigger] keys_of(entries@)[j], k@),
        r.1 ==> r.0 < entries.len() && keys_of(entries@)[r.0 as int] == k@,
        !r.1 && r.0 < entries.len() ==> lex_lt(k@, keys_of(entries@)[r.0 as int]),
{
    let n = entries.len();
    let mut p: usize = 0;
    while p < n
        invariant
            n == entries.len(),
            p <= n,
            forall|j: int| 0 <= j < p ==> lex_lt(#[trigger] keys_of(entries@)[j], k@),
        decreases n - p,
    {
        match place(entries[p].0.as_str(), k) {
            Place::Before => {
                p += 1;
            },
            Place::Same => {
                return (p, true);
            },
            Place::After => {
                return (p, false);
            },
        }
    }
    (p, false)
}

/// A map from strings to strings.
#[derive(Debug, PartialEq, Eq)]
pub struct StringMap {
    entries: Vec<(String, String)>,
}

impl View for StringMap {
    type V = Map<Seq<char>, Seq<char>>;

    closed spec fn view(&self) -> Map<Seq<char>, Seq<char>> {
        map_of(keys_of(self.entries@), vals_of(self.entries@))
    }
}

impl StringMap {
    /// The keys in lexicographic order.
    pub closed spec fn keys(&self) -> Seq<Seq<char>> {
        keys_of(self.entries@)
    }

    /// The values, in the order of their keys.
    pub closed spec fn vals(&self) -> Seq<Seq<char>> {
        vals_of(self.entries@)
    }

    /// The keys stand in strictly ascending order.
    #[verifier::type_invariant]
    pub closed spec fn wf(&self) -> bool {
        strictly_sorted(keys_of(self.entries@))
    }

    /// How the map, its keys and its values belong together.
    pub proof fn lemma_entries(&self)
        requires
            self.wf(),
        ensures
            strictly_sorted(self.keys()),
            self.keys().len() == self.vals().len(),
            self@ == map_of(self.keys(), self.vals()),
            self@.dom().finite(),
            self@.dom().len() == self.keys().len(),
            forall|k: Seq<char>| self@.contains_key(k) <==> self.keys().contains(k),
            self.keys() == sorted_elems(self@.dom()),
            forall|i: int|
                0 <= i < self.keys().len() ==> self@.contains_key(#[trigger] self.keys()[i])
                    && self@[self.keys()[i]] == self.vals()[i],
    {
        let keys = self.keys();
        lemma_strictly_sorted_distinct(keys);
        keys.unique_seq_to_set();
        assert(self@.dom() =~= keys.to_set());
        lemma_sorted_elems(self@.dom(), keys);
        assert forall|i: int| 0 <= i < keys.len() implies self@.contains_key(#[trigger] keys[i])
            && self@[keys[i]] == self.vals()[i] by {
            lemma_index_of_sorted(keys, i);
        }
    }

    /// Two maps that hold the same values under the same keys hold them
    /// in the same order: the order in which the entries went in leaves no
    /// trace.
    pub proof fn lemma_same_view(&self, other: &StringMap)
        requires
            self.wf(),
            other.wf(),
            self@ == other@,
        ensures
            self.keys() == other.keys(),
            self.vals() == other.vals(),
    {
        self.lemma_entries();
        other.lemma_entries();
        assert forall|i: int| 0 <= i < self.vals().len() implies self.vals()[i] == other.vals()[i] by {
            assert(self@[self.keys()[i]] == self.vals()[i]);
            assert(other@[other.keys()[i]] == other.vals()[i]);
        }
        assert(self.vals() =~= other.vals());
    }

    /// The empty map.
    pub fn new() -> (r: StringMap)
        ensures
            r@ == Map::<Seq<char>, Seq<char>>::empty(),
            r.keys() == Seq::<Seq<char>>::empty(),
            r.wf(),
    {
        let r = StringMap { entries: Vec::new() };
        proof {
            assert(keys_of(r.entries@) =~= Seq::<Seq<char>>::empty());
            assert(r@ =~= Map::<Seq<char>, Seq<char>>::empty());
        }
        r
    }

    /// The number of keys.
    pub fn len(&self) -> (n: usize)
        ensures
            n == self.keys().len(),
            n == self@.dom().len(),
    {
        proof {
            use_type_invariant(self);
            self.lemma_entries();
        }
        self.entries.len()
    }

    /// Whether the map holds a value under `k`.
    pub fn contains_key(&self, k: &str) -> (r: bool)
        ensures
            r == self@.contains_key(k@),
    {
        proof {
            use_type_invariant(self);
        }
        let (p, found) = find_entry(&self.entries, k);
        proof {
            if !found {
                lemma_slot_absent(keys_of(self.entries@), p as int, k@);
            } else {
                assert(keys_of(self.entries@).contains(k@));
            }
        }
        found
    }

    /// The value under `k`, if there is one.
    pub fn get(&self, k: &str) -> (r: Option<&String>)
        ensures
            r is Some <==> self@.contains_key(k@),
            r matches Some(v) ==> v@ == self@[k@],
    {
        proof {
            use_type_invariant(self);
            self.lemma_entries();
        }
        let (p, found) = find_entry(&self.entries, k);
        if found {
            proof {
                assert(self.keys()[p as int] == k@);
            }
            Some(&self.entries[p].1)
        } else {
            proof {
                lemma_slot_absent(keys_of(self.entries@), p as int, k@);
            }
            None
        }
    }

    /// Puts `v` under `k`, in place of what stood there.
    pub fn insert(&mut self, k: String, v: String)
        ensures
            final(self)@ == old(self)@.insert(k@, v@),
            final(self).wf(),
    {
        proof {
            use_type_invariant(&*self);
        }
        let (p, found) = find_entry(&self.entries, k.as_str());
        let ghost keys = keys_of(self.entries@);
        let ghost vals = vals_of(self.entries@);
        let mut entries: Vec<(String, String)> = Vec::new();
        proof {
            assert(keys_of(entries@) =~= Seq::<Seq<char>>::empty());
        }
        core::mem::swap(&mut self.entries, &mut entries);
        if found {
            proof {
                lemma_map_of_update(keys, vals, p as int, v@);
                assert(keys_of(entries@.update(p as int, (k, v))) =~= keys);
                assert(vals_of(entries@.update(p as int, (k, v))) =~= vals.update(p as int, v@));
            }
            entries.set(p, (k, v));
        } else {
            proof {
                lemma_slot_absent(keys, p as int, k@);
                lemma_insert_strictly_sorted(keys, p as int, k@);
                lemma_map_of_insert(keys, vals, p as int, k@, v@);
                assert(keys_of(entries@.insert(p as int, (k, v))) =~= keys.insert(p as int, k@));
                assert(vals_of(entries@.insert(p as int, (k, v))) =~= vals.insert(p as int, v@));
            }
            entries.insert(p, (k, v));
        }
        self.entries = entries;
    }

    /// The entries, key and value, in lexicographic order of the keys.
    pub fn entries(&self) -> (r: &Vec<(String, String)>)
        ensures
            keys_of(r@) == self.keys(),
            vals_of(r@) == self.vals(),
            keys_of(r@) == sorted_elems(self@.dom()),
            strictly_sorted(keys_of(r@)),
            forall|i: int|
                0 <= i < r@.len() ==> self@.contains_key(#[trigger] keys_of(r@)[i]) && self@[keys_of(
                    r@,
                )[i]] == vals_of(r@)[i],
    {
        proof {
            use_type_invariant(self);
            self.lemma_entries();
        }
        &self.entries
    }
}

} // verus!
