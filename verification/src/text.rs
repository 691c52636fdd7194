//! Character classes and elementary operations on character sequences.
//!
//! Every string is treated as its sequence of characters (`Seq<char>`); all
//! contracts are stated over those sequences.

use vstd::prelude::*;
use vstd::string::*;

verus! {

/// The characters that carry the Unicode `White_Space` property.
pub open spec fn is_space(c: char) -> bool {
    ('\u{09}' <= c && c <= '\u{0D}') || c == '\u{20}' || c == '\u{85}' || c == '\u{A0}' || c
        == '\u{1680}' || ('\u{2000}' <= c && c <= '\u{200A}') || c == '\u{2028}' || c
        == '\u{2029}' || c == '\u{202F}' || c == '\u{205F}' || c == '\u{3000}'
}

/// The ASCII white-space characters: tab, line feed, form feed, carriage
/// return and space.
pub open spec fn is_ascii_space(c: char) -> bool {
    c == '\u{09}' || c == '\u{0A}' || c == '\u{0C}' || c == '\u{0D}' || c == '\u{20}'
}

/// Decides whether `c` is a white-space character.
pub fn is_space_char(c: char) -> (r: bool)
    ensures
        r == is_space(c),
{
    ('\u{09}' <= c && c <= '\u{0D}') || c == '\u{20}' || c == '\u{85}' || c == '\u{A0}' || c
        == '\u{1680}' || ('\u{2000}' <= c && c <= '\u{200A}') || c == '\u{2028}' || c
        == '\u{2029}' || c == '\u{202F}' || c == '\u{205F}' || c == '\u{3000}'
}

/// Decides whether `c` is an ASCII white-space character.
pub fn is_ascii_space_char(c: char) -> (r: bool)
    ensures
        r == is_ascii_space(c),
{
    c == '\u{09}' || c == '\u{0A}' || c == '\u{0C}' || c == '\u{0D}' || c == '\u{20}'
}

/// The characters of `s`, one element per character.
pub fn to_chars(s: &str) -> (v: Vec<char>)
    ensures
        v@ == s@,
{
    let mut v: Vec<char> = Vec::new();
    for c in it: s.chars()
        invariant
            it.seq() == s@,
            v@ == it.seq().take(it.index() as int),
    {
        v.push(c);
    }
    v
}

/// The first index in `lo..hi` whose character is no white space, or `hi`.
pub open spec fn skip_spaces(s: Seq<char>, lo: int, hi: int) -> int
    decreases hi - lo,
{
    if 0 <= lo < hi <= s.len() && is_space(s[lo]) {
        skip_spaces(s, lo + 1, hi)
    } else {
        lo
    }
}

/// The end of the last character in `lo..hi` that is no white space, or `lo`.
pub open spec fn drop_spaces(s: Seq<char>, lo: int, hi: int) -> int
    decreases hi - lo,
{
    if 0 <= lo < hi <= s.len() && is_space(s[hi - 1]) {
        drop_spaces(s, lo, hi - 1)
    } else {
        hi
    }
}

/// Where the trimmed part of `s` starts.
pub open spec fn trim_start(s: Seq<char>) -> int {
    skip_spaces(s, 0, s.len() as int)
}

/// Where the trimmed part of `s` ends.
pub open spec fn trim_end(s: Seq<char>) -> int {
    drop_spaces(s, trim_start(s), s.len() as int)
}

/// `s` without its leading and trailing white space.
pub open spec fn trim(s: Seq<char>) -> Seq<char> {
    s.subrange(trim_start(s), trim_end(s))
}

/// `skip_spaces` stays in range, passes only white space and stops at the
/// first character that is none.
pub proof fn lemma_skip_spaces(s: Seq<char>, lo: int, hi: int)
    requires
        0 <= lo <= hi <= s.len(),
    ensures
        lo <= skip_spaces(s, lo, hi) <= hi,
        forall|i: int| lo <= i < skip_spaces(s, lo, hi) ==> is_space(#[trigger] s[i]),
        skip_spaces(s, lo, hi) < hi ==> !is_space(s[skip_spaces(s, lo, hi)]),
    decreases hi - lo,
{
    if lo < hi && is_space(s[lo]) {
        lemma_skip_spaces(s, lo + 1, hi);
    }
}

/// `drop_spaces` stays in range, passes only white space and stops behind
/// the last character that is none.
pub proof fn lemma_drop_spaces(s: Seq<char>, lo: int, hi: int)
    requires
        0 <= lo <= hi <= s.len(),
    ensures
        lo <= drop_spaces(s, lo, hi) <= hi,
        forall|i: int| drop_spaces(s, lo, hi) <= i < hi ==> is_space(#[trigger] s[i]),
        lo < drop_spaces(s, lo, hi) ==> !is_space(s[drop_spaces(s, lo, hi) - 1]),
    decreases hi - lo,
{
    if lo < hi && is_space(s[hi - 1]) {
        lemma_drop_spaces(s, lo, hi - 1);
    }
}

/// What trimming does: it cuts a run of white space from each end and
/// leaves a sequence that neither starts nor ends with white space.
pub proof fn lemma_trim(s: Seq<char>)
    ensures
        0 <= trim_start(s) <= trim_end(s) <= s.len(),
        trim(s).len() == trim_end(s) - trim_start(s),
        forall|i: int| 0 <= i < trim_start(s) ==> is_space(#[trigger] s[i]),
        forall|i: int| trim_end(s) <= i < s.len() ==> is_space(#[trigger] s[i]),
        forall|i: int| 0 <= i < trim(s).len() ==> trim(s)[i] == s[trim_start(s) + i],
        trim(s).len() > 0 ==> !is_space(trim(s)[0]) && !is_space(trim(s)[trim(s).len() - 1]),
{
    lemma_skip_spaces(s, 0, s.len() as int);
    lemma_drop_spaces(s, trim_start(s), s.len() as int);
}

/// The bounds of the trimmed part of `v`.
pub fn trim_bounds(v: &Vec<char>) -> (r: (usize, usize))
    ensures
        r.0 == trim_start(v@),
        r.1 == trim_end(v@),
        r.0 <= r.1 <= v.len(),
{
    let n = v.len();
    let mut a: usize = 0;
    while a < n && is_space_char(v[a])
        invariant
            n == v.len(),
            a <= n,
            skip_spaces(v@, 0, n as int) == skip_spaces(v@, a as int, n as int),
        decreases n - a,
    {
        a += 1;
    }
    let mut b: usize = n;
    while a < b && is_space_char(v[b - 1])
        invariant
            n == v.len(),
            a <= b <= n,
            drop_spaces(v@, a as int, n as int) == drop_spaces(v@, a as int, b as int),
        decreases b - a,
    {
        b -= 1;
    }
    (a, b)
}

/// `s` without its leading and trailing white space.
pub fn trim_str<'a>(s: &'a str) -> (r: &'a str)
    ensures
        r@ == trim(s@),
{
    let v = to_chars(s);
    let (a, b) = trim_bounds(&v);
    s.substring_char(a, b)
}

/// The views of the elements of `v`, in order.
pub open spec fn views<T: View>(v: Seq<T>) -> Seq<T::V> {
    Seq::new(v.len(), |i: int| v[i]@)
}

/// The first index at or after `from` that holds `c`, or the length of `s`.
pub open spec fn index_of(s: Seq<char>, c: char, from: int) -> int
    decreases s.len() - from,
{
    if 0 <= from < s.len() && s[from] != c {
        index_of(s, c, from + 1)
    } else {
        from
    }
}

/// `index_of` finds the first occurrence and nothing before it.
pub proof fn lemma_index_of(s: Seq<char>, c: char, from: int)
    requires
        0 <= from <= s.len(),
    ensures
        from <= index_of(s, c, from) <= s.len(),
        forall|i: int| from <= i < index_of(s, c, from) ==> #[trigger] s[i] != c,
        index_of(s, c, from) < s.len() ==> s[index_of(s, c, from)] == c,
    decreases s.len() - from,
{
    if from < s.len() && s[from] != c {
        lemma_index_of(s, c, from + 1);
    }
}

/// The pieces of `s` from index `from` on, cut at every `c`.
pub open spec fn split_from(s: Seq<char>, c: char, from: int) -> Seq<Seq<char>>
    decreases s.len() - from,
{
    let e = index_of(s, c, from);
    if 0 <= from <= e < s.len() {
        seq![s.subrange(from, e)] + split_from(s, c, e + 1)
    } else {
        seq![s.subrange(from, s.len() as int)]
    }
}

/// The pieces between the occurrences of `c` in `s`: one more than there
/// are occurrences, empty pieces included.
pub open spec fn split(s: Seq<char>, c: char) -> Seq<Seq<char>> {
    split_from(s, c, 0)
}

/// The elements of `parts` in order, with `sep` between each two.
pub open spec fn join(parts: Seq<Seq<char>>, sep: Seq<char>) -> Seq<char>
    decreases parts.len(),
{
    if parts.len() == 0 {
        seq![]
    } else if parts.len() == 1 {
        parts[0]
    } else {
        join(parts.drop_last(), sep) + sep + parts.last()
    }
}

/// Joining a first piece with more pieces puts the separator between the
/// two, if there are more.
pub proof fn lemma_join_first(first: Seq<char>, rest: Seq<Seq<char>>, sep: Seq<char>)
    ensures
        join(seq![first] + rest, sep) == if rest.len() == 0 {
            first
        } else {
            first + sep + join(rest, sep)
        },
    decreases rest.len(),
{
    let all = seq![first] + rest;
    if rest.len() == 0 {
        assert(all =~= seq![first]);
    } else {
        assert(all.drop_last() =~= seq![first] + rest.drop_last());
        assert(all.last() == rest.last());
        lemma_join_first(first, rest.drop_last(), sep);
        if rest.len() == 1 {
            assert(join(rest, sep) == rest[0]);
            assert(join(all, sep) =~= first + sep + join(rest, sep));
        } else {
            assert(join(all, sep) =~= first + sep + join(rest, sep));
        }
    }
}

/// What splitting is: the pieces hold no separator, and joined again with
/// the separator between them they give back what was split.
pub proof fn lemma_split(s: Seq<char>, c: char, from: int)
    requires
        0 <= from <= s.len(),
    ensures
        split_from(s, c, from).len() >= 1,
        forall|k: int, i: int|
            0 <= k < split_from(s, c, from).len() && 0 <= i < split_from(s, c, from)[k].len()
                ==> #[trigger] split_from(s, c, from)[k][i] != c,
        join(split_from(s, c, from), seq![c]) == s.subrange(from, s.len() as int),
    decreases s.len() - from,
{
    lemma_index_of(s, c, from);
    let e = index_of(s, c, from);
    let all = split_from(s, c, from);
    if e < s.len() {
        lemma_split(s, c, e + 1);
        let first = s.subrange(from, e);
        let rest = split_from(s, c, e + 1);
        assert(all == seq![first] + rest);
        assert forall|k: int, i: int| 0 <= k < all.len() && 0 <= i < all[k].len() implies #[trigger] all[k][i]
            != c by {
            if k == 0 {
                assert(all[0][i] == s[from + i]);
            } else {
                assert(all[k] == rest[k - 1]);
            }
        }
        lemma_join_first(first, rest, seq![c]);
        assert(first + seq![c] + s.subrange(e + 1, s.len() as int) =~= s.subrange(
            from,
            s.len() as int,
        ));
    } else {
        let only = s.subrange(from, s.len() as int);
        assert(all == seq![only]);
        assert forall|k: int, i: int| 0 <= k < all.len() && 0 <= i < all[k].len() implies #[trigger] all[k][i]
            != c by {
            assert(all[0][i] == s[from + i]);
        }
    }
}

/// Cuts `s` at every `sep`.
pub fn split_str<'a>(s: &'a str, sep: char) -> (r: Vec<&'a str>)
    ensures
        views(r@) == split(s@, sep),
        r.len() >= 1,
        forall|k: int, i: int|
            0 <= k < r.len() && 0 <= i < r[k]@.len() ==> #[trigger] views(r@)[k][i] != sep,
        join(views(r@), seq![sep]) == s@,
{
    let v = to_chars(s);
    let n = v.len();
    let mut r: Vec<&'a str> = Vec::new();
    let mut start: usize = 0;
    let mut i: usize = 0;
    while i < n
        invariant
            n == v.len(),
            v@ == s@,
            start <= i <= n,
            forall|j: int| start <= j < i ==> #[trigger] v@[j] != sep,
            split(s@, sep) == views(r@) + split_from(s@, sep, start as int),
        decreases n - i,
    {
        if v[i] == sep {
            proof {
                lemma_index_of_first(s@, sep, start as int, i as int);
            }
            let piece = s.substring_char(start, i);
            proof {
                assert(views(r@.push(piece)) =~= views(r@) + seq![piece@]);
            }
            r.push(piece);
            start = i + 1;
        }
        i += 1;
    }
    proof {
        lemma_index_of_none(s@, sep, start as int);
    }
    let piece = s.substring_char(start, n);
    proof {
        assert(views(r@.push(piece)) =~= views(r@) + seq![piece@]);
        lemma_split(s@, sep, 0);
        assert(s@.subrange(0, s@.len() as int) =~= s@);
    }
    r.push(piece);
    r
}

/// If `c` stands at `at` and nowhere in `from..at`, `index_of` finds `at`.
pub proof fn lemma_index_of_first(s: Seq<char>, c: char, from: int, at: int)
    requires
        0 <= from <= at < s.len(),
        s[at] == c,
        forall|j: int| from <= j < at ==> #[trigger] s[j] != c,
    ensures
        index_of(s, c, from) == at,
    decreases at - from,
{
    if from < at {
        lemma_index_of_first(s, c, from + 1, at);
    }
}

/// If `c` stands nowhere from `from` on, `index_of` gives the length.
pub proof fn lemma_index_of_none(s: Seq<char>, c: char, from: int)
    requires
        0 <= from <= s.len(),
        forall|j: int| from <= j < s.len() ==> #[trigger] s[j] != c,
    ensures
        index_of(s, c, from) == s.len(),
    decreases s.len() - from,
{
    if from < s.len() {
        lemma_index_of_none(s, c, from + 1);
    }
}

/// The first index at or after `from` that holds no ASCII white space, or
/// the length of `s`.
pub open spec fn word_start(s: Seq<char>, from: int) -> int
    decreases s.len() - from,
{
    if 0 <= from < s.len() && is_ascii_space(s[from]) {
        word_start(s, from + 1)
    } else {
        from
    }
}

/// The first index at or after `from` that holds ASCII white space, or the
/// length of `s`.
pub open spec fn word_end(s: Seq<char>, from: int) -> int
    decreases s.len() - from,
{
    if 0 <= from < s.len() && !is_ascii_space(s[from]) {
        word_end(s, from + 1)
    } else {
        from
    }
}

/// The words of `s` from index `from` on.
pub open spec fn words_from(s: Seq<char>, from: int) -> Seq<Seq<char>>
    decreases s.len() - from,
{
    let a = word_start(s, from);
    let e = word_end(s, a);
    if 0 <= from <= a < e <= s.len() {
        seq![s.subrange(a, e)] + words_from(s, e)
    } else {
        seq![]
    }
}

/// The words of `s`: its maximal runs of characters that are no ASCII
/// white space, in order.
pub open spec fn words(s: Seq<char>) -> Seq<Seq<char>> {
    words_from(s, 0)
}

/// `word_start` stays in range and passes only ASCII white space.
pub proof fn lemma_word_start(s: Seq<char>, from: int)
    requires
        0 <= from <= s.len(),
    ensures
        from <= word_start(s, from) <= s.len(),
        forall|i: int| from <= i < word_start(s, from) ==> is_ascii_space(#[trigger] s[i]),
        word_start(s, from) < s.len() ==> !is_ascii_space(s[word_start(s, from)]),
    decreases s.len() - from,
{
    if from < s.len() && is_ascii_space(s[from]) {
        lemma_word_start(s, from + 1);
    }
}

/// `word_end` stays in range and passes no ASCII white space.
pub proof fn lemma_word_end(s: Seq<char>, from: int)
    requires
        0 <= from <= s.len(),
    ensures
        from <= word_end(s, from) <= s.len(),
        forall|i: int| from <= i < word_end(s, from) ==> !is_ascii_space(#[trigger] s[i]),
        word_end(s, from) < s.len() ==> is_ascii_space(s[word_end(s, from)]),
        from < s.len() && !is_ascii_space(s[from]) ==> from < word_end(s, from),
    decreases s.len() - from,
{
    if from < s.len() && !is_ascii_space(s[from]) {
        lemma_word_end(s, from + 1);
    }
}

/// Every word is non-empty and holds no ASCII white space.
pub proof fn lemma_words(s: Seq<char>, from: int)
    requires
        0 <= from <= s.len(),
    ensures
        forall|k: int|
            0 <= k < words_from(s, from).len() ==> (#[trigger] words_from(s, from)[k]).len() > 0,
        forall|k: int, i: int|
            0 <= k < words_from(s, from).len() && 0 <= i < words_from(s, from)[k].len()
                ==> !is_ascii_space(#[trigger] words_from(s, from)[k][i]),
    decreases s.len() - from,
{
    lemma_word_start(s, from);
    let a = word_start(s, from);
    lemma_word_end(s, a);
    let e = word_end(s, a);
    if a < e {
        lemma_words(s, e);
        let rest = words_from(s, e);
        let all = words_from(s, from);
        assert(all == seq![s.subrange(a, e)] + rest);
        assert forall|k: int| 0 <= k < all.len() implies (#[trigger] all[k]).len() > 0 by {
            if k > 0 {
                assert(all[k] == rest[k - 1]);
            }
        }
        assert forall|k: int, i: int|
            0 <= k < all.len() && 0 <= i < all[k].len() implies !is_ascii_space(
            #[trigger] all[k][i],
        ) by {
            if k > 0 {
                assert(all[k] == rest[k - 1]);
            } else {
                assert(all[0][i] == s[a + i]);
            }
        }
    }
}

/// The words of `s`, each as a string of its own.
pub fn split_words(s: &str) -> (r: Vec<String>)
    ensures
        views(r@) == words(s@),
        forall|k: int| 0 <= k < r.len() ==> (#[trigger] views(r@)[k]).len() > 0,
        forall|k: int, i: int|
            0 <= k < r.len() && 0 <= i < r[k]@.len() ==> !is_ascii_space(
                #[trigger] views(r@)[k][i],
            ),
{
    let v = to_chars(s);
    let n = v.len();
    let mut r: Vec<String> = Vec::new();
    let mut i: usize = 0;
    while i < n
        invariant
            n == v.len(),
            v@ == s@,
            i <= n,
            words(s@) == views(r@) + words_from(s@, i as int),
        decreases n - i,
    {
        let ghost from = i as int;
        let mut a: usize = i;
        while a < n && is_ascii_space_char(v[a])
            invariant
                n == v.len(),
                v@ == s@,
                i <= a <= n,
                word_start(s@, from) == word_start(s@, a as int),
            decreases n - a,
        {
            a += 1;
        }
        let mut e: usize = a;
        while e < n && !is_ascii_space_char(v[e])
            invariant
                n == v.len(),
                v@ == s@,
                a <= e <= n,
                word_end(s@, a as int) == word_end(s@, e as int),
            decreases n - e,
        {
            e += 1;
        }
        if a < e {
            let piece = s.substring_char(a, e).to_owned();
            proof {
                assert(views(r@.push(piece)) =~= views(r@) + seq![piece@]);
            }
            r.push(piece);
            i = e;
        } else {
            i = n;
            proof {
                assert(words_from(s@, n as int) =~= seq![]);
            }
        }
    }
    proof {
        assert(words_from(s@, n as int) =~= seq![]);
        lemma_words(s@, 0);
    }
    r
}

/// Joins the strings of `parts` with `sep` between each two.
pub fn join_strings(parts: &Vec<String>, sep: &str) -> (r: String)
    ensures
        r@ == join(views(parts@), sep@),
{
    let mut r = String::new();
    let n = parts.len();
    let mut i: usize = 0;
    while i < n
        invariant
            n == parts.len(),
            i <= n,
            r@ == join(views(parts@).take(i as int), sep@),
        decreases n - i,
    {
        let ghost before = views(parts@).take(i as int);
        let ghost after = views(parts@).take(i + 1);
        proof {
            assert(after.drop_last() =~= before);
            assert(after.last() == parts@[i as int]@);
        }
        if i > 0 {
            r.append(sep);
        }
        r.append(parts[i].as_str());
        proof {
            if i == 0 {
                assert(r@ =~= after[0]);
            }
        }
        i += 1;
    }
    proof {
        assert(views(parts@).take(n as int) =~= views(parts@));
    }
    r
}

} // verus!
