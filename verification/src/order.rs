//! The lexicographic order on character sequences, and sorting by it.
//!
//! Characters are ordered by their code points, which is the order in which
//! `str` and `String` compare.

use vstd::prelude::*;
use vstd::relations::{sorted_by, total_ordering};
use vstd::seq_lib::*;
use crate::text::{to_chars, views};

verus! {

/// `a` and `b` hold the same characters at every index below `k`.
pub open spec fn agree_below(a: Seq<char>, b: Seq<char>, k: int) -> bool {
    &&& 0 <= k <= a.len()
    &&& k <= b.len()
    &&& forall|j: int| 0 <= j < k ==> a[j] == b[j]
}

/// `a` comes strictly before `b`: at the first index where they differ `a`
/// has ended or holds the smaller character.
pub open spec fn lex_lt(a: Seq<char>, b: Seq<char>) -> bool {
    exists|k: int|
        #[trigger] agree_below(a, b, k) && k < b.len() && (k == a.len() || a[k] < b[k])
}

/// `a` comes before `b` or equals it.
pub open spec fn lex_le(a: Seq<char>, b: Seq<char>) -> bool {
    lex_lt(a, b) || a == b
}

/// Each element comes before or equals every later one.
pub open spec fn sorted(v: Seq<Seq<char>>) -> bool {
    forall|i: int, j: int| 0 <= i < j < v.len() ==> lex_le(#[trigger] v[i], #[trigger] v[j])
}

/// Each element comes strictly before every later one.
pub open spec fn strictly_sorted(v: Seq<Seq<char>>) -> bool {
    forall|i: int, j: int| 0 <= i < j < v.len() ==> lex_lt(#[trigger] v[i], #[trigger] v[j])
}

/// No sequence comes before itself.
pub proof fn lemma_lex_irreflexive(a: Seq<char>)
    ensures
        !lex_lt(a, a),
{
}

/// Of two sequences at most one comes before the other.
pub proof fn lemma_lex_asymmetric(a: Seq<char>, b: Seq<char>)
    ensures
        !(lex_lt(a, b) && lex_lt(b, a)),
{
    if lex_lt(a, b) && lex_lt(b, a) {
        let k1 = choose|k: int|
            #[trigger] agree_below(a, b, k) && k < b.len() && (k == a.len() || a[k] < b[k]);
        let k2 = choose|k: int|
            #[trigger] agree_below(b, a, k) && k < a.len() && (k == b.len() || b[k] < a[k]);
        if k1 < k2 {
            assert(b[k1] == a[k1]);
        } else if k2 < k1 {
            assert(a[k2] == b[k2]);
        }
    }
}

/// The order is transitive.
pub proof fn lemma_lex_transitive(a: Seq<char>, b: Seq<char>, c: Seq<char>)
    requires
        lex_lt(a, b),
        lex_lt(b, c),
    ensures
        lex_lt(a, c),
{
    let k1 = choose|k: int|
        #[trigger] agree_below(a, b, k) && k < b.len() && (k == a.len() || a[k] < b[k]);
    let k2 = choose|k: int|
        #[trigger] agree_below(b, c, k) && k < c.len() && (k == b.len() || b[k] < c[k]);
    if k1 < k2 {
        assert(b[k1] == c[k1]);
        assert(agree_below(a, c, k1));
    } else if k1 == k2 {
        assert(agree_below(a, c, k1));
    } else {
        assert(a[k2] == b[k2]);
        assert(agree_below(a, c, k2));
    }
}

/// `lex_le` is transitive too.
pub proof fn lemma_lex_le_transitive(a: Seq<char>, b: Seq<char>, c: Seq<char>)
    requires
        lex_le(a, b),
        lex_le(b, c),
    ensures
        lex_le(a, c),
{
    if a != b && b != c {
        lemma_lex_transitive(a, b, c);
    }
}

/// The order is total: two different sequences are ordered one way or the
/// other.
pub proof fn lemma_lex_total(a: Seq<char>, b: Seq<char>)
    ensures
        lex_lt(a, b) || a == b || lex_lt(b, a),
{
    lemma_lex_total_from(a, b, 0);
}

/// Two sequences that agree below `k` are equal or ordered one way or the
/// other.
proof fn lemma_lex_total_from(a: Seq<char>, b: Seq<char>, k: int)
    requires
        agree_below(a, b, k),
    ensures
        lex_lt(a, b) || a == b || lex_lt(b, a),
    decreases a.len() - k,
{
    if k == a.len() {
        if k == b.len() {
            assert(a =~= b);
        } else {
            assert(agree_below(a, b, k));
        }
    } else if k == b.len() {
        assert(agree_below(b, a, k));
    } else if a[k] == b[k] {
        assert(agree_below(a, b, k + 1));
        lemma_lex_total_from(a, b, k + 1);
    } else if a[k] < b[k] {
        assert(agree_below(a, b, k));
    } else {
        assert(agree_below(b, a, k));
    }
}

/// How two sequences stand to each other in the order.
#[derive(Clone, Copy, Debug, PartialEq, Eq, Structural)]
pub enum Place {
    /// The first comes strictly before the second.
    Before,
    /// The two are equal.
    Same,
    /// The first comes strictly after the second.
    After,
}

/// Compares two character slices in the lexicographic order.
pub fn place_chars(a: &Vec<char>, b: &Vec<char>) -> (r: Place)
    ensures
        (r == Place::Before) == lex_lt(a@, b@),
        (r == Place::Same) == (a@ == b@),
        (r == Place::After) == lex_lt(b@, a@),
{
    proof {
        lemma_lex_asymmetric(a@, b@);
        lemma_lex_irreflexive(a@);
    }
    let n = a.len();
    let m = b.len();
    let mut i: usize = 0;
    while i < n && i < m
        invariant
            n == a.len(),
            m == b.len(),
            agree_below(a@, b@, i as int),
        decreases n - i,
    {
        let x: char = a[i];
        let y: char = b[i];
        if x < y {
            assert(lex_lt(a@, b@));
            return Place::Before;
        }
        if y < x {
            assert(agree_below(b@, a@, i as int));
            assert(lex_lt(b@, a@));
            return Place::After;
        }
        i += 1;
    }
    if i < m {
        assert(lex_lt(a@, b@));
        Place::Before
    } else if i < n {
        assert(agree_below(b@, a@, i as int));
        assert(lex_lt(b@, a@));
        Place::After
    } else {
        assert(a@ =~= b@);
        Place::Same
    }
}

/// Compares two strings in the lexicographic order of their characters.
pub fn place(a: &str, b: &str) -> (r: Place)
    ensures
        (r == Place::Before) == lex_lt(a@, b@),
        (r == Place::Same) == (a@ == b@),
        (r == Place::After) == lex_lt(b@, a@),
{
    let x = to_chars(a);
    let y = to_chars(b);
    place_chars(&x, &y)
}

/// `lex_le` as a value, for the functions of `vstd` that take an order.
pub open spec fn lex_order() -> spec_fn(Seq<char>, Seq<char>) -> bool {
    |a: Seq<char>, b: Seq<char>| lex_le(a, b)
}

/// `v` in lexicographic order: the one sorted sequence that holds every
/// element of `v` as often as `v` does.
pub open spec fn sort(v: Seq<Seq<char>>) -> Seq<Seq<char>> {
    v.sort_by(lex_order())
}

/// `lex_le` is a total order.
pub proof fn lemma_lex_order_total()
    ensures
        total_ordering(lex_order()),
{
    let leq = lex_order();
    assert forall|a: Seq<char>, b: Seq<char>| #[trigger] leq(a, b) && leq(b, a) implies a == b by {
        lemma_lex_asymmetric(a, b);
    }
    assert forall|a: Seq<char>, b: Seq<char>, c: Seq<char>| #[trigger]
        leq(a, b) && #[trigger] leq(b, c) implies leq(a, c) by {
        lemma_lex_le_transitive(a, b, c);
    }
    assert forall|a: Seq<char>, b: Seq<char>| #[trigger] leq(a, b) || #[trigger] leq(b, a) by {
        lemma_lex_total(a, b);
    }
}

/// What `sort` gives: a sorted sequence with the elements of `v`. There is
/// no other such sequence.
pub proof fn lemma_sort(v: Seq<Seq<char>>)
    ensures
        sorted(sort(v)),
        sort(v).to_multiset() == v.to_multiset(),
        sort(v).len() == v.len(),
        forall|w: Seq<Seq<char>>|
            sorted(w) && w.to_multiset() == v.to_multiset() ==> w == #[trigger] sort(v),
{
    lemma_lex_order_total();
    v.lemma_sort_by_ensures(lex_order());
    let r = sort(v);
    assert(sorted(r)) by {
        assert forall|i: int, j: int| 0 <= i < j < r.len() implies lex_le(
            #[trigger] r[i],
            #[trigger] r[j],
        ) by {
            assert(lex_order()(r[i], r[j]));
        }
    }
    r.to_multiset_ensures();
    v.to_multiset_ensures();
    assert forall|w: Seq<Seq<char>>|
        sorted(w) && w.to_multiset() == v.to_multiset() implies w == #[trigger] sort(v) by {
        assert(sorted_by(w, lex_order())) by {
            assert forall|i: int, j: int| 0 <= i < j < w.len() implies #[trigger] lex_order()(
                w[i],
                w[j],
            ) by {
                assert(lex_le(w[i], w[j]));
            }
        }
        lemma_sorted_unique(w, r, lex_order());
    }
}

/// Putting `x` into a sorted sequence, behind every element that is not
/// after it and before one that is, leaves the sequence sorted.
pub proof fn lemma_insert_sorted(v: Seq<Seq<char>>, p: int, x: Seq<char>)
    requires
        sorted(v),
        0 <= p <= v.len(),
        forall|j: int| 0 <= j < p ==> lex_le(#[trigger] v[j], x),
        p < v.len() ==> lex_lt(x, v[p]),
    ensures
        sorted(v.insert(p, x)),
{
    let w = v.insert(p, x);
    assert forall|i: int, j: int| 0 <= i < j < w.len() implies lex_le(
        #[trigger] w[i],
        #[trigger] w[j],
    ) by {
        if j < p {
        } else if j == p {
        } else if i < p {
            assert(w[j] == v[j - 1]);
        } else if i == p {
            assert(w[j] == v[j - 1]);
            if j - 1 > p {
                lemma_lex_le_transitive(x, v[p], v[j - 1]);
            }
        } else {
            assert(w[i] == v[i - 1]);
            assert(w[j] == v[j - 1]);
        }
    }
}

/// The strings of `v` in lexicographic order.
pub fn sort_strings(v: &Vec<String>) -> (r: Vec<String>)
    ensures
        views(r@) == sort(views(v@)),
        sorted(views(r@)),
        views(r@).to_multiset() == views(v@).to_multiset(),
        r.len() == v.len(),
{
    let mut r: Vec<String> = Vec::new();
    let n = v.len();
    let mut i: usize = 0;
    proof {
        assert(views(v@).take(0) =~= views(r@));
    }
    while i < n
        invariant
            n == v.len(),
            i <= n,
            sorted(views(r@)),
            views(r@).to_multiset() == views(v@).take(i as int).to_multiset(),
        decreases n - i,
    {
        let x = v[i].clone();
        let m = r.len();
        let mut p: usize = 0;
        while p < m && place(r[p].as_str(), x.as_str()) != Place::After
            invariant
                m == r.len(),
                p <= m,
                forall|j: int| 0 <= j < p ==> lex_le(#[trigger] views(r@)[j], x@),
            decreases m - p,
        {
            p += 1;
        }
        proof {
            let before = views(r@);
            lemma_insert_sorted(before, p as int, x@);
            assert(views(r@.insert(p as int, x)) =~= before.insert(p as int, x@));
            to_multiset_insert(before, p as int, x@);
            assert(views(v@).take(i + 1) =~= views(v@).take(i as int).push(x@));
            to_multiset_build(views(v@).take(i as int), x@);
        }
        r.insert(p, x);
        i += 1;
    }
    proof {
        assert(views(v@).take(n as int) =~= views(v@));
        lemma_sort(views(v@));
    }
    r
}

/// Whether two strings hold the same characters.
pub fn same(a: &str, b: &str) -> (r: bool)
    ensures
        r == (a@ == b@),
{
    place(a, b) == Place::Same
}

/// The first `n` elements of `v` without those that repeat the element
/// before them.
pub open spec fn unique(v: Seq<Seq<char>>, n: int) -> Seq<Seq<char>>
    decreases n,
{
    if n <= 0 {
        seq![]
    } else if n >= 2 && v[n - 1] == v[n - 2] {
        unique(v, n - 1)
    } else {
        unique(v, n - 1).push(v[n - 1])
    }
}

/// Of a sorted sequence `unique` keeps each element once, in order.
pub proof fn lemma_unique(v: Seq<Seq<char>>, n: int)
    requires
        sorted(v),
        0 <= n <= v.len(),
    ensures
        strictly_sorted(unique(v, n)),
        unique(v, n).len() <= n,
        n > 0 ==> unique(v, n).len() > 0 && unique(v, n).last() == v[n - 1],
        forall|x: Seq<char>| unique(v, n).contains(x) <==> v.take(n).contains(x),
    decreases n,
{
    if n > 0 {
        lemma_unique(v, n - 1);
        let u = unique(v, n - 1);
        let w = unique(v, n);
        let vn = v.take(n);
        let vp = v.take(n - 1);
        if n >= 2 && v[n - 1] == v[n - 2] {
            assert forall|x: Seq<char>| w.contains(x) <==> vn.contains(x) by {
                if vn.contains(x) {
                    let i = choose|i: int| 0 <= i < n && vn[i] == x;
                    if i == n - 1 {
                        assert(vp[n - 2] == x);
                    } else {
                        assert(vp[i] == x);
                    }
                }
                if vp.contains(x) {
                    let i = choose|i: int| 0 <= i < n - 1 && vp[i] == x;
                    assert(vn[i] == x);
                }
            }
        } else {
            assert(w == u.push(v[n - 1]));
            assert forall|i: int, j: int| 0 <= i < j < w.len() implies lex_lt(
                #[trigger] w[i],
                #[trigger] w[j],
            ) by {
                if j == w.len() - 1 {
                    // the last of `u` is `v[n - 2]`, which is before `v[n - 1]`
                    assert(lex_le(v[n - 2], v[n - 1]));
                    assert(u.last() == v[n - 2]);
                    if i < u.len() - 1 {
                        assert(lex_lt(u[i], u[u.len() - 1]));
                        lemma_lex_transitive(u[i], u.last(), v[n - 1]);
                    }
                }
            }
            assert forall|x: Seq<char>| w.contains(x) <==> vn.contains(x) by {
                if w.contains(x) {
                    let i = choose|i: int| 0 <= i < w.len() && w[i] == x;
                    if i == w.len() - 1 {
                        assert(vn[n - 1] == x);
                    } else {
                        assert(u[i] == x);
                        assert(u.contains(x));
                        let k = choose|k: int| 0 <= k < n - 1 && vp[k] == x;
                        assert(vn[k] == x);
                    }
                }
                if vn.contains(x) {
                    let i = choose|i: int| 0 <= i < n && vn[i] == x;
                    if i == n - 1 {
                        assert(w[w.len() - 1] == x);
                    } else {
                        assert(vp[i] == x);
                        assert(u.contains(x));
                        let k = choose|k: int| 0 <= k < u.len() && u[k] == x;
                        assert(w[k] == x);
                    }
                }
            }
        }
    }
}

/// The strings of the sorted `v`, each once.
pub fn unique_strings(v: Vec<String>) -> (r: Vec<String>)
    requires
        sorted(views(v@)),
    ensures
        views(r@) == unique(views(v@), v@.len() as int),
        strictly_sorted(views(r@)),
        forall|x: Seq<char>| views(r@).contains(x) <==> views(v@).contains(x),
{
    let mut r: Vec<String> = Vec::new();
    let n = v.len();
    let mut i: usize = 0;
    while i < n
        invariant
            n == v.len(),
            i <= n,
            views(r@) == unique(views(v@), i as int),
        decreases n - i,
    {
        if i == 0 || !same(v[i].as_str(), v[i - 1].as_str()) {
            let x = v[i].clone();
            proof {
                assert(views(r@.push(x)) =~= views(r@).push(x@));
            }
            r.push(x);
        }
        i += 1;
    }
    proof {
        lemma_unique(views(v@), n as int);
        assert(views(v@).take(n as int) =~= views(v@));
    }
    r
}

} // verus!
