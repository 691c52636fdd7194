//! Syntactic validation of email addresses.
//!
//! An address is accepted in one of two forms, after the white space around
//! it has been cut off:
//!
//! * bare: `local@domain.tld`, three runs of characters that are no white
//!   space, the first two parted by `@` and the last two by `.`;
//! * with a display name: any text that starts with a character that is no
//!   white space and ends with white space, then a bare address between `<`
//!   and `>`.
//!
//! Nothing but the shape is looked at.

use vstd::prelude::*;
use crate::text::{is_space, is_space_char, lemma_trim, to_chars, trim, trim_bounds};

verus! {

/// No character of `s` is white space.
pub open spec fn no_space(s: Seq<char>) -> bool {
    forall|i: int| 0 <= i < s.len() ==> !is_space(#[trigger] s[i])
}

/// `s` holds an `@` at `i` and a `.` at `j`, with at least one character
/// before the `@`, between the two, and after the `.`.
pub open spec fn at_and_dot(s: Seq<char>, i: int, j: int) -> bool {
    1 <= i && i + 2 <= j && j + 2 <= s.len() && s[i] == '@' && s[j] == '.'
}

/// `s` is a bare address.
pub open spec fn is_bare_address(s: Seq<char>) -> bool {
    no_space(s) && exists|i: int, j: int| #[trigger] at_and_dot(s, i, j)
}

/// In `s` the bare address starts right behind a `<` at `k` and ends before
/// a closing `>`; what stands before the `<` starts with a character that
/// is no white space and ends with white space.
pub open spec fn address_after(s: Seq<char>, k: int) -> bool {
    &&& 2 <= k
    &&& k + 1 < s.len()
    &&& !is_space(s[0])
    &&& is_space(s[k - 1])
    &&& s[k] == '<'
    &&& s[s.len() - 1] == '>'
    &&& is_bare_address(s.subrange(k + 1, s.len() - 1))
}

/// `s` is an address with a display name.
pub open spec fn is_display_address(s: Seq<char>) -> bool {
    exists|k: int| #[trigger] address_after(s, k)
}

/// `s` is a valid email address: cut free of surrounding white space, it is
/// a bare address or an address with a display name.
pub open spec fn is_valid_email(s: Seq<char>) -> bool {
    is_bare_address(trim(s)) || is_display_address(trim(s))
}

/// Decides whether the characters `lo..hi` of `v` are a bare address.
pub fn is_bare_range(v: &Vec<char>, lo: usize, hi: usize) -> (r: bool)
    requires
        lo <= hi <= v.len(),
    ensures
        r == is_bare_address(v@.subrange(lo as int, hi as int)),
{
    let ghost s = v@.subrange(lo as int, hi as int);
    // no white space anywhere
    let mut i: usize = lo;
    while i < hi
        invariant
            lo <= i <= hi <= v.len(),
            s == v@.subrange(lo as int, hi as int),
            forall|x: int| 0 <= x < i - lo ==> !is_space(#[trigger] s[x]),
        decreases hi - i,
    {
        if is_space_char(v[i]) {
            assert(is_space(s[i - lo]));
            return false;
        }
        i += 1;
    }
    assert(no_space(s));
    if hi - lo < 5 {
        return false;
    }
    // the first `@` that has a character before it
    let mut a: usize = lo + 1;
    while a < hi && v[a] != '@'
        invariant
            lo + 1 <= a <= hi <= v.len(),
            s == v@.subrange(lo as int, hi as int),
            forall|x: int| 1 <= x < a - lo ==> #[trigger] s[x] != '@',
        decreases hi - a,
    {
        a += 1;
    }
    if a >= hi {
        assert forall|x: int, y: int| !#[trigger] at_and_dot(s, x, y) by {}
        return false;
    }
    // the last `.` that has a character behind it
    let mut d: usize = hi - 2;
    while d > a + 1 && v[d] != '.'
        invariant
            lo + 1 <= a < hi <= v.len(),
            d <= hi - 2,
            s == v@.subrange(lo as int, hi as int),
            forall|y: int| d - lo < y <= s.len() - 2 ==> #[trigger] s[y] != '.',
        decreases d,
    {
        d -= 1;
    }
    if d > a + 1 {
        assert(at_and_dot(s, a - lo, d - lo));
        true
    } else {
        assert forall|x: int, y: int| !#[trigger] at_and_dot(s, x, y) by {
            if at_and_dot(s, x, y) {
                assert(x >= a - lo);
                assert(y > d - lo || y <= a - lo + 1);
            }
        }
        false
    }
}

/// Decides whether the characters `lo..hi` of `v` are an address with a
/// display name.
pub fn is_display_range(v: &Vec<char>, lo: usize, hi: usize) -> (r: bool)
    requires
        lo <= hi <= v.len(),
    ensures
        r == is_display_address(v@.subrange(lo as int, hi as int)),
{
    let ghost s = v@.subrange(lo as int, hi as int);
    if hi - lo < 4 || v[hi - 1] != '>' || is_space_char(v[lo]) {
        assert forall|k: int| !#[trigger] address_after(s, k) by {}
        return false;
    }
    // the last white space: the address cannot hold any, so if there is a
    // `<` that opens it, it stands right behind
    let mut w: usize = hi - 1;
    while w > lo && !is_space_char(v[w])
        invariant
            lo <= w < hi <= v.len(),
            s == v@.subrange(lo as int, hi as int),
            forall|x: int| w - lo < x < s.len() ==> !is_space(#[trigger] s[x]),
            !is_space(s[s.len() - 1]),
        decreases w,
    {
        w -= 1;
    }
    if w == lo || w + 2 >= hi || v[w + 1] != '<' {
        assert forall|k: int| !#[trigger] address_after(s, k) by {
            if address_after(s, k) {
                assert(is_space(s[k - 1]));
                assert(k - 1 <= w - lo);
                if k - 1 < w - lo {
                    let inner = s.subrange(k + 1, s.len() - 1);
                    assert(w > lo);
                    assert(is_space(s[w - lo]));
                    if w - lo == k {
                    } else {
                        assert(inner[w - lo - k - 1] == s[w - lo]);
                    }
                }
            }
        }
        return false;
    }
    let k: usize = w + 1;
    let bare = is_bare_range(v, k + 1, hi - 1);
    proof {
        assert(v@.subrange(k + 1, hi - 1) =~= s.subrange(k - lo + 1, s.len() - 1));
        if bare {
            assert(address_after(s, k - lo));
        } else {
            assert forall|x: int| !#[trigger] address_after(s, x) by {
                if address_after(s, x) {
                    assert(is_space(s[x - 1]));
                    assert(x - 1 <= w - lo);
                    if x - 1 < w - lo {
                        let inner = s.subrange(x + 1, s.len() - 1);
                        assert(is_space(s[w - lo]));
                        if w - lo == x {
                        } else {
                            assert(inner[w - lo - x - 1] == s[w - lo]);
                        }
                    }
                }
            }
        }
    }
    bare
}

/// Implements a basic sanity check for email addresses: tells whether
/// `email` is a valid address, bare or with a display name, whatever white
/// space surrounds it.
pub fn check_email(email: &str) -> (r: bool)
    ensures
        r == is_valid_email(email@),
{
    let v = to_chars(email);
    let (lo, hi) = trim_bounds(&v);
    proof {
        lemma_trim(email@);
    }
    is_bare_range(&v, lo, hi) || is_display_range(&v, lo, hi)
}

/// Every string of the shape `local@domain.tld` is accepted, whatever
/// white space surrounds it: if what is left of `s` after trimming is three
/// non-empty runs of characters that are no white space, parted by `@` and
/// `.`, then `s` is a valid address.
pub proof fn law_bare_shape_accepted(s: Seq<char>, local: Seq<char>, domain: Seq<char>, tld: Seq<char>)
    requires
        local.len() > 0 && no_space(local),
        domain.len() > 0 && no_space(domain),
        tld.len() > 0 && no_space(tld),
        trim(s) == local + seq!['@'] + domain + seq!['.'] + tld,
    ensures
        is_valid_email(s),
{
    let t = trim(s);
    let i = local.len() as int;
    let j = i + 1 + domain.len();
    assert(t[i] == '@');
    assert(t[j] == '.');
    assert(at_and_dot(t, i, j));
    assert forall|x: int| 0 <= x < t.len() implies !is_space(#[trigger] t[x]) by {
        if x < i {
            assert(t[x] == local[x]);
        } else if x == i {
        } else if x < j {
            assert(t[x] == domain[x - i - 1]);
        } else if x == j {
        } else {
            assert(t[x] == tld[x - j - 1]);
        }
    }
}

/// Every string of the shape `name <local@domain.tld>` is accepted,
/// whatever white space surrounds it: a name that starts with a character
/// that is no white space, then white space, then a bare address between
/// `<` and `>`. The name may hold anything, quotes and white space
/// included.
pub proof fn law_display_shape_accepted(
    s: Seq<char>,
    name: Seq<char>,
    gap: Seq<char>,
    address: Seq<char>,
)
    requires
        name.len() > 0 && !is_space(name[0]),
        gap.len() > 0 && forall|i: int| 0 <= i < gap.len() ==> is_space(#[trigger] gap[i]),
        is_bare_address(address),
        trim(s) == name + gap + seq!['<'] + address + seq!['>'],
    ensures
        is_valid_email(s),
{
    let t = trim(s);
    let k = (name.len() + gap.len()) as int;
    assert(t[0] == name[0]);
    assert(t[k - 1] == gap[gap.len() - 1]);
    assert(t[k] == '<');
    assert(t[t.len() - 1] == '>');
    assert(t.subrange(k + 1, t.len() - 1) =~= address);
    assert(address_after(t, k));
}

/// A string in which no `.` stands anywhere behind an `@` is rejected: in
/// particular every string without an `@`, and every string without a `.`.
pub proof fn law_rejects_without_at_and_dot(s: Seq<char>)
    requires
        forall|i: int, j: int| 0 <= i < j < s.len() ==> !(s[i] == '@' && s[j] == '.'),
    ensures
        !is_valid_email(s),
{
    lemma_trim(s);
    let t = trim(s);
    let a = crate::text::trim_start(s);
    if is_bare_address(t) {
        let (i, j) = choose|i: int, j: int| #[trigger] at_and_dot(t, i, j);
        assert(s[a + i] == '@' && s[a + j] == '.');
    }
    if is_display_address(t) {
        let k = choose|k: int| #[trigger] address_after(t, k);
        let inner = t.subrange(k + 1, t.len() - 1);
        let (i, j) = choose|i: int, j: int| #[trigger] at_and_dot(inner, i, j);
        assert(inner[i] == t[k + 1 + i]);
        assert(inner[j] == t[k + 1 + j]);
        assert(s[a + k + 1 + i] == '@' && s[a + k + 1 + j] == '.');
    }
}

/// A string of white space alone, the empty string among them, is
/// rejected.
pub proof fn law_rejects_blank(s: Seq<char>)
    requires
        forall|i: int| 0 <= i < s.len() ==> is_space(#[trigger] s[i]),
    ensures
        !is_valid_email(s),
{
    lemma_trim(s);
    let t = trim(s);
    if t.len() > 0 {
        assert(t[0] == s[crate::text::trim_start(s)]);
    }
    if is_bare_address(t) {
        let (i, j) = choose|i: int, j: int| #[trigger] at_and_dot(t, i, j);
    }
    if is_display_address(t) {
        let k = choose|k: int| #[trigger] address_after(t, k);
    }
}

/// An address without white space needs a local part: if the only `@` of
/// such a string is its first character, it is rejected.
pub proof fn law_rejects_missing_local_part(s: Seq<char>)
    requires
        no_space(trim(s)),
        forall|i: int| 1 <= i < trim(s).len() ==> #[trigger] trim(s)[i] != '@',
    ensures
        !is_valid_email(s),
{
    let t = trim(s);
    if is_bare_address(t) {
        let (i, j) = choose|i: int, j: int| #[trigger] at_and_dot(t, i, j);
        assert(t[i] == '@');
    }
    if is_display_address(t) {
        let k = choose|k: int| #[trigger] address_after(t, k);
        assert(is_space(t[k - 1]));
    }
}

/// An address without white space needs a domain with a dot in it: if no
/// `.` stands two or more places behind an `@`, with a character after it,
/// the string is rejected.
pub proof fn law_rejects_missing_domain(s: Seq<char>)
    requires
        no_space(trim(s)),
        forall|i: int, j: int|
            1 <= i && i + 2 <= j && j + 2 <= trim(s).len() ==> !(trim(s)[i] == '@' && trim(s)[j]
                == '.'),
    ensures
        !is_valid_email(s),
{
    let t = trim(s);
    if is_bare_address(t) {
        let (i, j) = choose|i: int, j: int| #[trigger] at_and_dot(t, i, j);
        assert(t[i] == '@' && t[j] == '.');
    }
    if is_display_address(t) {
        let k = choose|k: int| #[trigger] address_after(t, k);
        assert(is_space(t[k - 1]));
    }
}

} // verus!
