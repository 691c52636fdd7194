//! The template of a mailing: its text, the placeholders in it, and the
//! check that every recipient has what the placeholders ask for.
//!
//! A placeholder is a key between two `%`, as in `%ORG%`. A key is a run of
//! one or more word characters. The text is read from left to right, and a
//! `%` that closes one placeholder does not open the next.

use vstd::prelude::*;
use vstd::string::StringExecFns;
use crate::config::{Recipient, RecipientView};
use crate::order::{lex_lt, same, strictly_sorted};
use crate::table::{lemma_sorted_elems, lists, sorted_elems, StringSet};
use crate::text::{join, join_strings, to_chars, views};

verus! {

/// Whether `c` is a word character in the sense of Unicode: it has the
/// property `Alphabetic` or `Join_Control`, or it is a mark, a decimal
/// number or a connector such as `_`.
pub uninterp spec fn word_char(c: char) -> bool;

/// Tells whether `c` is a Unicode word character, as
/// `regex_syntax::try_is_word_character` decides it. That function looks
/// `c` up in the table of the class `\w`; nothing is claimed here of what
/// the table holds. It gives an error only where its crate was built
/// without the table, which is there by default; no character is then
/// taken for a word character.
#[verifier::external_body]
fn is_word_char(c: char) -> (r: bool)
    ensures
        r == word_char(c),
{
    regex_syntax::try_is_word_character(c).unwrap_or(false)
}

/// Whether `c` can stand in a key: it is a word character, and not the
/// delimiter.
pub open spec fn is_key_char(c: char) -> bool {
    c != '%' && word_char(c)
}

/// Decides whether `c` can stand in a key.
pub fn is_key_character(c: char) -> (r: bool)
    ensures
        r == is_key_char(c),
{
    c != '%' && is_word_char(c)
}

/// The first index at or after `from` that holds no key character, or the
/// length of `s`.
pub open spec fn key_end(s: Seq<char>, from: int) -> int
    decreases s.len() - from,
{
    if 0 <= from < s.len() && is_key_char(s[from]) {
        key_end(s, from + 1)
    } else {
        from
    }
}

/// `key_end` stays in range and passes only key characters.
pub proof fn lemma_key_end(s: Seq<char>, from: int)
    requires
        0 <= from <= s.len(),
    ensures
        from <= key_end(s, from) <= s.len(),
        forall|i: int| from <= i < key_end(s, from) ==> is_key_char(#[trigger] s[i]),
        key_end(s, from) < s.len() ==> !is_key_char(s[key_end(s, from)]),
    decreases s.len() - from,
{
    if from < s.len() && is_key_char(s[from]) {
        lemma_key_end(s, from + 1);
    }
}

/// A placeholder starts at `from`: a `%`, a key of at least one character,
/// and a `%` right behind the key.
pub open spec fn placeholder_at(s: Seq<char>, from: int) -> bool {
    &&& 0 <= from < s.len()
    &&& s[from] == '%'
    &&& from + 1 < key_end(s, from + 1) < s.len()
    &&& s[key_end(s, from + 1)] == '%'
}

/// The keys of the placeholders of `s` from index `from` on, in the order
/// in which they stand. After a placeholder the search goes on behind its
/// closing `%`; anywhere else it goes on at the next character.
pub open spec fn keys_from(s: Seq<char>, from: int) -> Seq<Seq<char>>
    decreases s.len() - from,
{
    if from < 0 || from >= s.len() {
        seq![]
    } else if placeholder_at(s, from) {
        seq![s.subrange(from + 1, key_end(s, from + 1))] + keys_from(s, key_end(s, from + 1) + 1)
    } else {
        keys_from(s, from + 1)
    }
}

/// The keys of the placeholders of `s`, in the order in which they stand.
pub open spec fn placeholders(s: Seq<char>) -> Seq<Seq<char>> {
    keys_from(s, 0)
}

/// The set of the keys that the placeholders of `s` name.
pub open spec fn template_keys(s: Seq<char>) -> Set<Seq<char>> {
    placeholders(s).to_set()
}

/// Every key that is found is non-empty, is made of key characters, and
/// stands in the text between two `%`.
pub proof fn lemma_keys_from(s: Seq<char>, from: int)
    requires
        0 <= from <= s.len(),
    ensures
        forall|k: int|
            0 <= k < keys_from(s, from).len() ==> {
                let key = #[trigger] keys_from(s, from)[k];
                &&& key.len() > 0
                &&& forall|i: int| 0 <= i < key.len() ==> is_key_char(#[trigger] key[i])
                &&& exists|a: int|
                    from <= a && a + key.len() + 1 < s.len() && s[a] == '%' && s[a + key.len() + 1]
                        == '%' && #[trigger] s.subrange(a + 1, a + 1 + key.len()) == key
            },
    decreases s.len() - from,
{
    if from < s.len() {
        let all = keys_from(s, from);
        if placeholder_at(s, from) {
            let e = key_end(s, from + 1);
            lemma_key_end(s, from + 1);
            lemma_keys_from(s, e + 1);
            let rest = keys_from(s, e + 1);
            let first = s.subrange(from + 1, e);
            assert(all == seq![first] + rest);
            assert forall|k: int| 0 <= k < all.len() implies {
                let key = #[trigger] all[k];
                &&& key.len() > 0
                &&& forall|i: int| 0 <= i < key.len() ==> is_key_char(#[trigger] key[i])
                &&& exists|a: int|
                    from <= a && a + key.len() + 1 < s.len() && s[a] == '%' && s[a + key.len() + 1]
                        == '%' && #[trigger] s.subrange(a + 1, a + 1 + key.len()) == key
            } by {
                let key = all[k];
                if k == 0 {
                    assert(key == first);
                    assert forall|i: int| 0 <= i < key.len() implies is_key_char(
                        #[trigger] key[i],
                    ) by {
                        assert(key[i] == s[from + 1 + i]);
                    }
                    assert(s.subrange(from + 1, from + 1 + key.len()) == key);
                } else {
                    assert(key == rest[k - 1]);
                    let a = choose|a: int|
                        e + 1 <= a && a + key.len() + 1 < s.len() && s[a] == '%' && s[a + key.len()
                            + 1] == '%' && #[trigger] s.subrange(a + 1, a + 1 + key.len()) == key;
                    assert(s.subrange(a + 1, a + 1 + key.len()) == key);
                }
            }
        } else {
            lemma_keys_from(s, from + 1);
            let rest = keys_from(s, from + 1);
            assert(all == rest);
            assert forall|k: int| 0 <= k < all.len() implies {
                let key = #[trigger] all[k];
                &&& key.len() > 0
                &&& forall|i: int| 0 <= i < key.len() ==> is_key_char(#[trigger] key[i])
                &&& exists|a: int|
                    from <= a && a + key.len() + 1 < s.len() && s[a] == '%' && s[a + key.len() + 1]
                        == '%' && #[trigger] s.subrange(a + 1, a + 1 + key.len()) == key
            } by {
                let key = all[k];
                let a = choose|a: int|
                    from + 1 <= a && a + key.len() + 1 < s.len() && s[a] == '%' && s[a + key.len()
                        + 1] == '%' && #[trigger] s.subrange(a + 1, a + 1 + key.len()) == key;
                assert(s.subrange(a + 1, a + 1 + key.len()) == key);
            }
        }
    }
}

/// Only a key between two delimiters counts: every key of a template is a
/// non-empty run of key characters that stands in the text right behind a
/// `%` and right before another. So `%%` and a lone `%` give no key.
pub proof fn law_keys_are_delimited(s: Seq<char>)
    ensures
        forall|key: Seq<char>| #[trigger]
            template_keys(s).contains(key) ==> {
                &&& key.len() > 0
                &&& forall|i: int| 0 <= i < key.len() ==> is_key_char(#[trigger] key[i])
                &&& exists|a: int|
                    0 <= a && a + key.len() + 1 < s.len() && s[a] == '%' && s[a + key.len() + 1]
                        == '%' && #[trigger] s.subrange(a + 1, a + 1 + key.len()) == key
            },
{
    lemma_keys_from(s, 0);
    let all = placeholders(s);
    assert forall|key: Seq<char>| #[trigger] template_keys(s).contains(key) implies {
        &&& key.len() > 0
        &&& forall|i: int| 0 <= i < key.len() ==> is_key_char(#[trigger] key[i])
        &&& exists|a: int|
            0 <= a && a + key.len() + 1 < s.len() && s[a] == '%' && s[a + key.len() + 1] == '%'
                && #[trigger] s.subrange(a + 1, a + 1 + key.len()) == key
    } by {
        let k = choose|k: int| 0 <= k < all.len() && all[k] == key;
        assert(all[k] == key);
    }
}

/// A text without two delimiters has no keys.
pub proof fn law_no_keys_without_delimiters(s: Seq<char>)
    requires
        forall|i: int, j: int| 0 <= i < j < s.len() ==> !(s[i] == '%' && s[j] == '%'),
    ensures
        template_keys(s) == Set::<Seq<char>>::empty(),
{
    law_keys_are_delimited(s);
    assert forall|key: Seq<char>| !template_keys(s).contains(key) by {
        if template_keys(s).contains(key) {
            let a = choose|a: int|
                0 <= a && a + key.len() + 1 < s.len() && s[a] == '%' && s[a + key.len() + 1] == '%'
                    && #[trigger] s.subrange(a + 1, a + 1 + key.len()) == key;
            assert(s[a] == '%' && s[a + key.len() + 1] == '%');
        }
    }
    assert(template_keys(s) =~= Set::<Seq<char>>::empty());
}

/// The template of a mailing.
#[derive(Debug, PartialEq, Eq)]
pub struct Template {
    /// The text, as it was given.
    text: String,
    /// The keys that the placeholders of the text name.
    keys: StringSet,
}

/// A `Template` as plain mathematical values.
pub struct TemplateView {
    pub text: Seq<char>,
    pub keys: Set<Seq<char>>,
}

impl View for Template {
    type V = TemplateView;

    closed spec fn view(&self) -> TemplateView {
        TemplateView { text: self.text@, keys: self.keys@ }
    }
}

/// Reads a template: keeps the text as it is and collects the keys of its
/// placeholders.
pub fn new(template: &str) -> (r: Template)
    ensures
        r@.text == template@,
        r@.keys == template_keys(template@),
{
    let v = to_chars(template);
    let n = v.len();
    let mut keys = StringSet::new();
    let ghost found: Seq<Seq<char>> = seq![];
    let mut i: usize = 0;
    proof {
        assert(found.to_set() =~= keys@);
    }
    while i < n
        invariant
            n == v.len(),
            v@ == template@,
            i <= n,
            placeholders(template@) == found + keys_from(template@, i as int),
            keys@ == found.to_set(),
        decreases n - i,
    {
        let ghost from = i as int;
        let mut e: usize = i + 1;
        if v[i] == '%' {
            while e < n && is_key_character(v[e])
                invariant
                    n == v.len(),
                    v@ == template@,
                    i < e <= n,
                    key_end(template@, from + 1) == key_end(template@, e as int),
                decreases n - e,
            {
                e += 1;
            }
        }
        if v[i] == '%' && e > i + 1 && e < n && v[e] == '%' {
            let key = String::from_str(template.substring_char(i + 1, e));
            proof {
                assert(placeholder_at(template@, from));
                let rest = keys_from(template@, e + 1);
                assert(found + (seq![key@] + rest) =~= found.push(key@) + rest);
                assert(found.push(key@).to_set() =~= found.to_set().insert(key@)) by {
                    let w = found.push(key@);
                    assert forall|x: Seq<char>| w.to_set().contains(x) <==> found.to_set().insert(
                        key@,
                    ).contains(x) by {
                        if w.contains(x) {
                            let j = choose|j: int| 0 <= j < w.len() && w[j] == x;
                            if j < found.len() {
                                assert(found[j] == x);
                            }
                        }
                        if found.contains(x) {
                            let j = choose|j: int| 0 <= j < found.len() && found[j] == x;
                            assert(w[j] == x);
                        }
                        if x == key@ {
                            assert(w[w.len() - 1] == x);
                        }
                    }
                }
                found = found.push(key@);
            }
            keys.insert(key);
            i = e + 1;
        } else {
            proof {
                assert(!placeholder_at(template@, from));
            }
            i += 1;
        }
    }
    proof {
        assert(keys_from(template@, n as int) =~= seq![]);
        assert(found + Seq::<Seq<char>>::empty() =~= found);
    }
    Template { text: String::from_str(template), keys }
}

/// The keys that are filled in for every recipient without being asked of
/// the recipient's data.
pub open spec fn auto_keys() -> Set<Seq<char>> {
    set!["_EA"@, "_FN"@, "_LN"@, "_TN"@, "_TV"@]
}

/// Decides whether `k` is one of the keys that are filled in automatically.
pub fn is_auto_key(k: &str) -> (r: bool)
    ensures
        r == auto_keys().contains(k@),
{
    same(k, "_EA") || same(k, "_FN") || same(k, "_LN") || same(k, "_TN") || same(k, "_TV")
}

/// The keys that a recipient's data must hold for a template with the keys
/// `keys`: all but the automatic ones.
pub open spec fn required_keys(keys: Set<Seq<char>>) -> Set<Seq<char>> {
    keys.difference(auto_keys())
}

/// The required keys that `data` does not hold.
pub open spec fn missing_keys(keys: Set<Seq<char>>, data: Map<Seq<char>, Seq<char>>) -> Set<
    Seq<char>,
> {
    required_keys(keys).difference(data.dom())
}

/// The line that tells which keys the recipient `email` lacks.
pub open spec fn diagnostic(email: Seq<char>, missing: Seq<Seq<char>>) -> Seq<char> {
    email + " is missing the following key(s): "@ + join(missing, ", "@)
}

/// The diagnostics for the first `n` recipients: one line for each that
/// lacks a required key, in the order of the recipients, the keys of each
/// line in lexicographic order.
pub open spec fn diagnostics(keys: Set<Seq<char>>, rs: Seq<RecipientView>, n: int) -> Seq<Seq<char>>
    decreases n,
{
    if n <= 0 {
        seq![]
    } else if required_keys(keys).subset_of(rs[n - 1].data.dom()) {
        diagnostics(keys, rs, n - 1)
    } else {
        diagnostics(keys, rs, n - 1).push(
            diagnostic(rs[n - 1].email, sorted_elems(missing_keys(keys, rs[n - 1].data))),
        )
    }
}

/// There is no diagnostic exactly if every recipient holds every required
/// key; and there are never more diagnostics than recipients.
pub proof fn lemma_diagnostics(keys: Set<Seq<char>>, rs: Seq<RecipientView>, n: int)
    requires
        0 <= n <= rs.len(),
    ensures
        diagnostics(keys, rs, n).len() <= n,
        diagnostics(keys, rs, n).len() == 0 <==> forall|i: int|
            0 <= i < n ==> required_keys(keys).subset_of((#[trigger] rs[i]).data.dom()),
    decreases n,
{
    if n > 0 {
        lemma_diagnostics(keys, rs, n - 1);
        if !required_keys(keys).subset_of(rs[n - 1].data.dom()) {
            assert(diagnostics(keys, rs, n).len() > 0);
        }
    }
}

impl Template {
    /// The text, as it was given.
    pub fn text(&self) -> (r: &String)
        ensures
            r@ == self@.text,
    {
        &self.text
    }

    /// The keys that the placeholders of the text name.
    pub fn keys(&self) -> (r: &StringSet)
        ensures
            r@ == self@.keys,
    {
        &self.keys
    }

    /// The required keys that `rcp` lacks, in lexicographic order.
    pub fn missing_for(&self, rcp: &Recipient) -> (r: Vec<String>)
        ensures
            views(r@) == sorted_elems(missing_keys(self@.keys, rcp@.data)),
            r.len() == 0 <==> required_keys(self@.keys).subset_of(rcp@.data.dom()),
    {
        let items = self.keys.items();
        let ghost all = views(items@);
        let ghost want = missing_keys(self@.keys, rcp@.data);
        let mut missing: Vec<String> = Vec::new();
        let n = items.len();
        let mut i: usize = 0;
        while i < n
            invariant
                n == items.len(),
                i <= n,
                all == views(items@),
                lists(all, self@.keys),
                want == missing_keys(self@.keys, rcp@.data),
                forall|k: int|
                    0 <= k < missing.len() ==> exists|j: int|
                        0 <= j < i && all[j] == #[trigger] views(missing@)[k],
                forall|k: int| 0 <= k < missing.len() ==> want.contains(#[trigger] views(missing@)[k]),
                forall|j: int|
                    0 <= j < i && want.contains(#[trigger] all[j]) ==> views(missing@).contains(
                        all[j],
                    ),
                strictly_sorted(views(missing@)),
            decreases n - i,
        {
            let key = items[i].as_str();
            proof {
                assert(all[i as int] == key@);
                assert(all.contains(key@));
            }
            if !is_auto_key(key) && !rcp.data.contains_key(key) {
                let k = items[i].clone();
                proof {
                    let before = views(missing@);
                    let after = views(missing@.push(k));
                    assert(after =~= before.push(k@));
                    assert forall|x: int, y: int| 0 <= x < y < after.len() implies lex_lt(
                        #[trigger] after[x],
                        #[trigger] after[y],
                    ) by {
                        if y == after.len() - 1 {
                            let j = choose|j: int| 0 <= j < i && all[j] == before[x];
                            assert(lex_lt(all[j], all[i as int]));
                        } else {
                            assert(lex_lt(before[x], before[y]));
                        }
                    }
                    assert forall|m: int| 0 <= m < after.len() implies exists|j: int|
                        0 <= j < i + 1 && all[j] == #[trigger] after[m] by {
                        if m == after.len() - 1 {
                            assert(all[i as int] == after[m]);
                        } else {
                            let j = choose|j: int| 0 <= j < i && all[j] == before[m];
                            assert(all[j] == after[m]);
                        }
                    }
                    assert forall|j: int|
                        0 <= j < i + 1 && want.contains(#[trigger] all[j]) implies after.contains(
                        all[j],
                    ) by {
                        if j == i {
                            assert(after[after.len() - 1] == all[j]);
                        } else {
                            let m = choose|m: int| 0 <= m < before.len() && before[m] == all[j];
                            assert(after[m] == all[j]);
                        }
                    }
                }
                missing.push(k);
            }
            i += 1;
        }
        proof {
            let out = views(missing@);
            assert forall|x: Seq<char>| out.contains(x) <==> want.contains(x) by {
                if want.contains(x) {
                    assert(all.contains(x));
                    let j = choose|j: int| 0 <= j < all.len() && all[j] == x;
                    assert(want.contains(all[j]));
                }
            }
            lemma_sorted_elems(want, out);
            if out.len() > 0 {
                assert(want.contains(out[0]));
            }
            if !required_keys(self@.keys).subset_of(rcp@.data.dom()) {
                let x = choose|x: Seq<char>|
                    required_keys(self@.keys).contains(x) && !rcp@.data.dom().contains(x);
                assert(want.contains(x));
                assert(out.contains(x));
            }
        }
        missing
    }

    /// Checks that every recipient holds a value for every key of the
    /// template that is not filled in automatically.
    ///
    /// All recipients are looked at. The error holds one line for each
    /// recipient that lacks a key, in the order of the recipients, and each
    /// line names every key that this recipient lacks.
    pub fn check_recipents(&self, recipients: &Vec<Recipient>) -> (r: Result<(), Vec<String>>)
        ensures
            match r {
                Ok(_) => diagnostics(self@.keys, views(recipients@), recipients@.len() as int).len()
                    == 0,
                Err(errors) => errors.len() > 0 && views(errors@) == diagnostics(
                    self@.keys,
                    views(recipients@),
                    recipients@.len() as int,
                ),
            },
            r is Ok <==> forall|i: int|
                0 <= i < recipients.len() ==> required_keys(self@.keys).subset_of(
                    (#[trigger] recipients[i])@.data.dom(),
                ),
    {
        let mut errors: Vec<String> = Vec::new();
        let n = recipients.len();
        let mut i: usize = 0;
        let ghost rs = views(recipients@);
        proof {
            assert(views(errors@) =~= seq![]);
        }
        while i < n
            invariant
                n == recipients.len(),
                i <= n,
                rs == views(recipients@),
                views(errors@) == diagnostics(self@.keys, rs, i as int),
            decreases n - i,
        {
            let rcp = &recipients[i];
            proof {
                assert(rs[i as int] == rcp@);
            }
            let missing = self.missing_for(rcp);
            if missing.len() > 0 {
                let list = join_strings(&missing, ", ");
                let line = String::from_str(rcp.email.as_str()).concat(
                    " is missing the following key(s): ",
                ).concat(list.as_str());
                proof {
                    assert(views(errors@.push(line)) =~= views(errors@).push(line@));
                }
                errors.push(line);
            }
            i += 1;
        }
        proof {
            lemma_diagnostics(self@.keys, rs, n as int);
            assert forall|i: int| 0 <= i < n implies rs[i].data == (#[trigger] recipients[i])@.data by {}
            if errors.len() == 0 {
                assert forall|i: int| 0 <= i < recipients.len() implies required_keys(
                    self@.keys,
                ).subset_of((#[trigger] recipients[i])@.data.dom()) by {
                    assert(required_keys(self@.keys).subset_of(rs[i].data.dom()));
                }
            } else {
                let j = choose|j: int|
                    0 <= j < n && !required_keys(self@.keys).subset_of((#[trigger] rs[j]).data.dom());
                assert(rs[j].data == recipients[j]@.data);
            }
        }
        if errors.len() > 0 {
            Err(errors)
        } else {
            Ok(())
        }
    }
}

} // verus!
