//! The configuration of a mailing: who sends, what about, to whom and with
//! which data, and the rules by which it is read from its two sections.

use vstd::prelude::*;
use vstd::string::StringExecFns;
pub use crate::email::check_email;
use crate::email::is_valid_email;
use crate::error::{ConfigError, ConfigErrorView, DatumError, DatumErrorView};
use crate::order::{
    lemma_sort, lemma_unique, lex_lt, same, sort, sort_strings, sorted, strictly_sorted, unique,
    unique_strings,
};
use crate::table::{keys_of, sorted_elems, vals_of, StringMap};
use crate::text::{
    join, join_strings, split, split_str, split_words, to_chars, trim, trim_str, views, words,
};

verus! {

/// One addressee and the data to fill the template with for them.
#[derive(Debug, PartialEq, Eq)]
pub struct Recipient {
    /// The recipient's email address.
    pub email: String,
    /// The recipient's names: the first name first, then the rest.
    pub names: Vec<String>,
    /// What else was given for the recipient, by key.
    pub data: StringMap,
}

/// A `Recipient` as plain mathematical values.
pub struct RecipientView {
    pub email: Seq<char>,
    pub names: Seq<Seq<char>>,
    pub data: Map<Seq<char>, Seq<char>>,
}

impl View for Recipient {
    type V = RecipientView;

    open spec fn view(&self) -> RecipientView {
        RecipientView { email: self.email@, names: views(self.names@), data: self.data@ }
    }
}

/// The two sections that a configuration is read from, each a map from
/// key to value, or absent.
#[derive(Debug, PartialEq, Eq)]
pub struct Sections {
    /// The section `general`: sender, subject and copies.
    pub general: Option<StringMap>,
    /// The section `recipients`: one entry per recipient, by email address.
    pub recipients: Option<StringMap>,
}

/// The configuration of a mailing, as read from its two sections.
#[derive(Debug, PartialEq, Eq)]
pub struct Config {
    /// The sender: a valid email address.
    from: String,
    /// The subject of the emails.
    subject: String,
    /// Who gets a copy.
    cc: Vec<String>,
    /// Whom to reply to.
    replyto: Vec<String>,
    /// Who should receive the email.
    recipients: Vec<Recipient>,
}

/// A `Config` as plain mathematical values.
pub struct ConfigView {
    pub from: Seq<char>,
    pub subject: Seq<char>,
    pub cc: Seq<Seq<char>>,
    pub replyto: Seq<Seq<char>>,
    pub recipients: Seq<RecipientView>,
}

impl View for Config {
    type V = ConfigView;

    closed spec fn view(&self) -> ConfigView {
        ConfigView {
            from: self.from@,
            subject: self.subject@,
            cc: views(self.cc@),
            replyto: views(self.replyto@),
            recipients: views(self.recipients@),
        }
    }
}

/// The strings of `a`, each as a `String` of its own.
pub fn sa(a: &[&str]) -> (r: Vec<String>)
    ensures
        views(r@) == views(a@),
{
    let mut r: Vec<String> = Vec::new();
    let n = a.len();
    let mut i: usize = 0;
    while i < n
        invariant
            n == a.len(),
            i <= n,
            views(r@) == views(a@).take(i as int),
        decreases n - i,
    {
        let s = String::from_str(a[i]);
        proof {
            assert(views(a@)[i as int] == a@[i as int]@);
            assert(views(r@.push(s)) =~= views(r@).push(s@));
            assert(views(a@).take(i + 1) =~= views(a@).take(i as int).push(s@));
        }
        r.push(s);
        i += 1;
    }
    proof {
        assert(views(a@).take(n as int) =~= views(a@));
    }
    r
}

/// The map that the first `n` pairs of `a` give when they are put in one
/// after the other: where a key comes twice its last value stands.
pub open spec fn pairs_map(a: Seq<(&str, &str)>, n: int) -> Map<Seq<char>, Seq<char>>
    decreases n,
{
    if n <= 0 {
        Map::empty()
    } else {
        pairs_map(a, n - 1).insert(a[n - 1].0@, a[n - 1].1@)
    }
}

/// The map that holds the pairs of `a`, key and value.
pub fn sm(a: &[(&str, &str)]) -> (r: StringMap)
    ensures
        r@ == pairs_map(a@, a@.len() as int),
{
    let mut r = StringMap::new();
    let n = a.len();
    let mut i: usize = 0;
    while i < n
        invariant
            n == a.len(),
            i <= n,
            r@ == pairs_map(a@, i as int),
        decreases n - i,
    {
        r.insert(String::from_str(a[i].0), String::from_str(a[i].1));
        i += 1;
    }
    r
}

/// The first `n` pairs of `a` name no key twice.
pub open spec fn distinct_keys(a: Seq<(&str, &str)>, n: int) -> bool {
    forall|i: int, j: int| 0 <= i < j < n ==> (#[trigger] a[i]).0@ != (#[trigger] a[j]).0@
}

/// Where no key comes twice, the map holds exactly the pairs that went in.
pub proof fn lemma_pairs_map(a: Seq<(&str, &str)>, n: int)
    requires
        0 <= n <= a.len(),
        distinct_keys(a, n),
    ensures
        forall|k: Seq<char>|
            pairs_map(a, n).contains_key(k) <==> exists|i: int| 0 <= i < n && (#[trigger] a[i]).0@ == k,
        forall|i: int| 0 <= i < n ==> pairs_map(a, n)[(#[trigger] a[i]).0@] == a[i].1@,
    decreases n,
{
    if n > 0 {
        lemma_pairs_map(a, n - 1);
        let m = pairs_map(a, n - 1);
        let k0 = a[n - 1].0@;
        assert forall|k: Seq<char>| pairs_map(a, n).contains_key(k) <==> exists|i: int|
            0 <= i < n && (#[trigger] a[i]).0@ == k by {
            if k == k0 {
                assert(a[n - 1].0@ == k);
            }
            if m.contains_key(k) {
                let i = choose|i: int| 0 <= i < n - 1 && (#[trigger] a[i]).0@ == k;
                assert(0 <= i < n && a[i].0@ == k);
            }
            if exists|i: int| 0 <= i < n && (#[trigger] a[i]).0@ == k {
                let i = choose|i: int| 0 <= i < n && (#[trigger] a[i]).0@ == k;
                if i < n - 1 {
                    assert(0 <= i < n - 1 && a[i].0@ == k);
                }
            }
        }
        assert forall|i: int| 0 <= i < n implies pairs_map(a, n)[(#[trigger] a[i]).0@] == a[i].1@ by {
            if i < n - 1 {
                assert(a[i].0@ != a[n - 1].0@);
            }
        }
    }
}

/// The order in which pairs are given does not matter where no key comes
/// twice: two lists that name no key twice and hold the same pairs give the
/// same map.
pub proof fn law_pairs_order_independent(a: Seq<(&str, &str)>, b: Seq<(&str, &str)>)
    requires
        distinct_keys(a, a.len() as int),
        distinct_keys(b, b.len() as int),
        forall|i: int|
            0 <= i < a.len() ==> exists|j: int|
                0 <= j < b.len() && (#[trigger] b[j]).0@ == (#[trigger] a[i]).0@ && b[j].1@ == a[i].1@,
        forall|j: int|
            0 <= j < b.len() ==> exists|i: int|
                0 <= i < a.len() && (#[trigger] a[i]).0@ == (#[trigger] b[j]).0@ && a[i].1@ == b[j].1@,
    ensures
        pairs_map(a, a.len() as int) == pairs_map(b, b.len() as int),
{
    let ma = pairs_map(a, a.len() as int);
    let mb = pairs_map(b, b.len() as int);
    lemma_pairs_map(a, a.len() as int);
    lemma_pairs_map(b, b.len() as int);
    assert forall|k: Seq<char>| ma.contains_key(k) <==> mb.contains_key(k) by {
        if ma.contains_key(k) {
            let i = choose|i: int| 0 <= i < a.len() && (#[trigger] a[i]).0@ == k;
            let j = choose|j: int|
                0 <= j < b.len() && (#[trigger] b[j]).0@ == a[i].0@ && b[j].1@ == a[i].1@;
            assert(b[j].0@ == k);
        }
        if mb.contains_key(k) {
            let j = choose|j: int| 0 <= j < b.len() && (#[trigger] b[j]).0@ == k;
            let i = choose|i: int|
                0 <= i < a.len() && (#[trigger] a[i]).0@ == b[j].0@ && a[i].1@ == b[j].1@;
            assert(a[i].0@ == k);
        }
    }
    assert forall|k: Seq<char>| ma.contains_key(k) implies ma[k] == mb[k] by {
        let i = choose|i: int| 0 <= i < a.len() && (#[trigger] a[i]).0@ == k;
        let j = choose|j: int|
            0 <= j < b.len() && (#[trigger] b[j]).0@ == a[i].0@ && b[j].1@ == a[i].1@;
        assert(ma[a[i].0@] == a[i].1@);
        assert(mb[b[j].0@] == b[j].1@);
    }
    assert(ma =~= mb);
}

/// Of the first `n` elements of `pieces`, those that are not blank, each
/// trimmed.
pub open spec fn kept(pieces: Seq<Seq<char>>, n: int) -> Seq<Seq<char>>
    decreases n,
{
    if n <= 0 {
        seq![]
    } else {
        let t = trim(pieces[n - 1]);
        if t.len() > 0 {
            kept(pieces, n - 1).push(t)
        } else {
            kept(pieces, n - 1)
        }
    }
}

/// The fields of `s`: what stands between the separators, trimmed, without
/// the fields that are then empty.
pub open spec fn fields(s: Seq<char>, sep: char) -> Seq<Seq<char>> {
    kept(split(s, sep), split(s, sep).len() as int)
}

/// Cuts `s` at every `sep`, trims the pieces and drops the empty ones.
pub fn split_fields<'a>(s: &'a str, sep: char) -> (r: Vec<&'a str>)
    ensures
        views(r@) == fields(s@, sep),
{
    let pieces = split_str(s, sep);
    let mut r: Vec<&'a str> = Vec::new();
    let n = pieces.len();
    let mut i: usize = 0;
    while i < n
        invariant
            n == pieces.len(),
            i <= n,
            views(pieces@) == split(s@, sep),
            views(r@) == kept(split(s@, sep), i as int),
        decreases n - i,
    {
        let t = trim_str(pieces[i]);
        proof {
            assert(views(pieces@)[i as int] == pieces@[i as int]@);
        }
        if !t.is_empty() {
            proof {
                assert(views(r@.push(t)) =~= views(r@).push(t@));
            }
            r.push(t);
        }
        i += 1;
    }
    r
}

/// Of the first `n` elements of `entries`, those that are no valid email
/// address.
pub open spec fn rejected(entries: Seq<Seq<char>>, n: int) -> Seq<Seq<char>>
    decreases n,
{
    if n <= 0 {
        seq![]
    } else if is_valid_email(entries[n - 1]) {
        rejected(entries, n - 1)
    } else {
        rejected(entries, n - 1).push(entries[n - 1])
    }
}

/// None of the first `n` elements of `entries` is rejected exactly if all
/// of them are valid.
pub proof fn lemma_rejected(entries: Seq<Seq<char>>, n: int)
    requires
        0 <= n <= entries.len(),
    ensures
        rejected(entries, n).len() == 0 <==> forall|i: int|
            0 <= i < n ==> is_valid_email(#[trigger] entries[i]),
        forall|i: int|
            0 <= i < rejected(entries, n).len() ==> !is_valid_email(
                #[trigger] rejected(entries, n)[i],
            ),
    decreases n,
{
    if n > 0 {
        lemma_rejected(entries, n - 1);
        if !is_valid_email(entries[n - 1]) {
            assert(rejected(entries, n).len() > 0);
        }
    }
}

/// What a comma-separated list of addresses under the header `header`
/// comes to: the addresses in lexicographic order if there is at least one
/// and all are valid; else the error that tells of the empty list, or of
/// every invalid entry.
pub open spec fn check_emails_spec(header: Seq<char>, emails: Seq<char>) -> Result<
    Seq<Seq<char>>,
    ConfigErrorView,
> {
    let entries = fields(emails, ',');
    let bad = rejected(entries, entries.len() as int);
    if entries.len() == 0 {
        Err(ConfigErrorView::NoEmails(header))
    } else if bad.len() > 0 {
        Err(ConfigErrorView::InvalidEmails { header, offending: sort(bad) })
    } else {
        Ok(sort(entries))
    }
}

/// Whether `r` is `expected`, with strings taken as their characters.
pub open spec fn is_list_result(
    r: Result<Vec<String>, ConfigError>,
    expected: Result<Seq<Seq<char>>, ConfigErrorView>,
) -> bool {
    match r {
        Ok(list) => expected == Ok::<Seq<Seq<char>>, ConfigErrorView>(views(list@)),
        Err(e) => expected == Err::<Seq<Seq<char>>, ConfigErrorView>(e@),
    }
}

/// Takes a string with comma-delimited email addresses and checks their
/// validity.
///
/// If there is at least one and all are valid, returns them sorted.
/// Otherwise the error names the header, and every invalid address.
pub fn check_emails(header: &str, emails: &str) -> (r: Result<Vec<String>, ConfigError>)
    ensures
        is_list_result(r, check_emails_spec(header@, emails@)),
        r matches Ok(list) ==> sorted(views(list@)) && list.len() > 0 && forall|i: int|
            0 <= i < list.len() ==> is_valid_email(#[trigger] list[i]@),
{
    let data = split_fields(emails, ',');
    if data.len() == 0 {
        return Err(ConfigError::NoEmails(String::from_str(header)));
    }
    let ghost entries = fields(emails@, ',');
    let mut valid: Vec<String> = Vec::new();
    let mut invalid: Vec<String> = Vec::new();
    let n = data.len();
    let mut i: usize = 0;
    while i < n
        invariant
            n == data.len(),
            i <= n,
            views(data@) == entries,
            views(invalid@) == rejected(entries, i as int),
            invalid.len() == 0 ==> views(valid@) == entries.take(i as int),
        decreases n - i,
    {
        proof {
            assert(entries[i as int] == data@[i as int]@);
        }
        let email = String::from_str(data[i]);
        if check_email(data[i]) {
            proof {
                assert(views(valid@.push(email)) =~= views(valid@).push(email@));
                assert(entries.take(i + 1) =~= entries.take(i as int).push(entries[i as int]));
            }
            valid.push(email);
        } else {
            proof {
                assert(views(invalid@.push(email)) =~= views(invalid@).push(email@));
            }
            invalid.push(email);
        }
        i += 1;
    }
    if invalid.len() > 0 {
        let offending = sort_strings(&invalid);
        return Err(ConfigError::InvalidEmails { header: String::from_str(header), offending });
    }
    let list = sort_strings(&valid);
    proof {
        assert(entries.take(n as int) =~= entries);
        lemma_rejected(entries, n as int);
        let out = views(list@);
        assert forall|i: int| 0 <= i < list.len() implies is_valid_email(#[trigger] list[i]@) by {
            out.to_multiset_ensures();
            entries.to_multiset_ensures();
            assert(out[i] == list[i]@);
            assert(out.contains(out[i]));
            assert(out.to_multiset().count(out[i]) > 0);
            assert(entries.contains(out[i]));
        }
    }
    Ok(list)
}

/// A list of addresses as a configuration holds it: in lexicographic order,
/// each address once.
pub open spec fn address_list(header: Seq<char>, value: Seq<char>) -> Result<
    Seq<Seq<char>>,
    ConfigErrorView,
> {
    match check_emails_spec(header, value) {
        Ok(list) => Ok(unique(list, list.len() as int)),
        Err(e) => Err(e),
    }
}

/// `list` is a list of addresses as a configuration holds it: valid
/// addresses in strictly ascending order.
pub open spec fn is_address_list(list: Seq<Seq<char>>) -> bool {
    strictly_sorted(list) && forall|i: int| 0 <= i < list.len() ==> is_valid_email(#[trigger] list[i])
}

/// What reading gives where it succeeds is a list of addresses.
pub proof fn lemma_address_list(header: Seq<char>, value: Seq<char>)
    requires
        address_list(header, value) is Ok,
    ensures
        is_address_list(address_list(header, value)->Ok_0),
{
    let entries = fields(value, ',');
    let list = sort(entries);
    let out = unique(list, list.len() as int);
    lemma_rejected(entries, entries.len() as int);
    lemma_sort(entries);
    lemma_unique(list, list.len() as int);
    assert(list.take(list.len() as int) =~= list);
    assert forall|i: int| 0 <= i < out.len() implies is_valid_email(#[trigger] out[i]) by {
        assert(out.contains(out[i]));
        assert(list.contains(out[i]));
        list.to_multiset_ensures();
        entries.to_multiset_ensures();
        assert(list.to_multiset().count(out[i]) > 0);
        assert(entries.contains(out[i]));
    }
}

/// Reads a list of addresses for the configuration.
pub fn read_address_list(header: &str, value: &str) -> (r: Result<Vec<String>, ConfigError>)
    ensures
        is_list_result(r, address_list(header@, value@)),
{
    match check_emails(header, value) {
        Ok(list) => Ok(unique_strings(list)),
        Err(e) => Err(e),
    }
}

/// The delimiter `:-` stands at index `i` of `s`.
pub open spec fn delim_at(s: Seq<char>, i: int) -> bool {
    0 <= i && i + 1 < s.len() && s[i] == ':' && s[i + 1] == '-'
}

/// The first index at or after `from` where the delimiter `:-` stands, or
/// the length of `s`.
pub open spec fn find_delim(s: Seq<char>, from: int) -> int
    decreases s.len() - from,
{
    if from < 0 || from + 1 >= s.len() {
        s.len() as int
    } else if delim_at(s, from) {
        from
    } else {
        find_delim(s, from + 1)
    }
}

/// `find_delim` finds the first delimiter and nothing before it.
pub proof fn lemma_find_delim(s: Seq<char>, from: int)
    requires
        0 <= from,
    ensures
        find_delim(s, from) == s.len() || (from <= find_delim(s, from) && delim_at(
            s,
            find_delim(s, from),
        )),
        forall|i: int| from <= i < find_delim(s, from) ==> !delim_at(s, i),
    decreases s.len() - from,
{
    if from + 1 < s.len() && !delim_at(s, from) {
        lemma_find_delim(s, from + 1);
    }
}

/// What one datum of a recipient comes to.
pub enum Datum {
    /// Nothing: the datum is blank, or its key and its value both are.
    Blank,
    /// A key and its value.
    Pair(Seq<char>, Seq<char>),
    /// An error.
    Bad(DatumErrorView),
}

/// Reads one datum: a key and a value around exactly one delimiter `:-`,
/// both trimmed and neither empty. A blank datum, and one whose key and
/// value are both empty, count for nothing.
pub open spec fn parse_datum(field: Seq<char>) -> Datum {
    let d = find_delim(field, 0);
    if d >= field.len() {
        if trim(field).len() == 0 {
            Datum::Blank
        } else {
            Datum::Bad(DatumErrorView::InvalidRecipientDatum(field))
        }
    } else if find_delim(field, d + 2) < field.len() {
        Datum::Bad(DatumErrorView::InvalidRecipientDatum(field))
    } else {
        let key = trim(field.subrange(0, d));
        let value = trim(field.subrange(d + 2, field.len() as int));
        if key.len() == 0 && value.len() == 0 {
            Datum::Blank
        } else if key.len() == 0 {
            Datum::Bad(DatumErrorView::EmptyKey(value))
        } else if value.len() == 0 {
            Datum::Bad(DatumErrorView::EmptyValue(key))
        } else {
            Datum::Pair(key, value)
        }
    }
}

/// What the first `n` data of `data` come to, read in order: the map of
/// their keys and values, a later value for a key standing in place of an
/// earlier one; or the error of the first datum that has one.
pub open spec fn parse_data(data: Seq<Seq<char>>, n: int) -> Result<
    Map<Seq<char>, Seq<char>>,
    DatumErrorView,
>
    decreases n,
{
    if n <= 0 {
        Ok(Map::empty())
    } else {
        match parse_data(data, n - 1) {
            Err(e) => Err(e),
            Ok(m) => match parse_datum(data[n - 1]) {
                Datum::Blank => Ok(m),
                Datum::Pair(k, v) => Ok(m.insert(k, v)),
                Datum::Bad(e) => Err(e),
            },
        }
    }
}

/// Whether `r` is `expected`, with strings taken as their characters.
pub open spec fn is_data_result(
    r: Result<StringMap, DatumError>,
    expected: Result<Map<Seq<char>, Seq<char>>, DatumErrorView>,
) -> bool {
    match r {
        Ok(m) => expected == Ok::<Map<Seq<char>, Seq<char>>, DatumErrorView>(m@),
        Err(e) => expected == Err::<Map<Seq<char>, Seq<char>>, DatumErrorView>(e@),
    }
}

/// The first index at or after `from` where the delimiter `:-` stands in
/// `v`, or the length of `v`.
pub fn find_delim_in(v: &Vec<char>, from: usize) -> (r: usize)
    ensures
        r == find_delim(v@, from as int),
        r <= v.len(),
{
    let n = v.len();
    let mut i: usize = from;
    while i < n && i + 1 < n
        invariant
            n == v.len(),
            from <= i,
            find_delim(v@, from as int) == find_delim(v@, i as int),
        decreases n - i,
    {
        if v[i] == ':' && v[i + 1] == '-' {
            return i;
        }
        i += 1;
    }
    n
}

/// Reads one datum of a recipient.
pub fn read_datum(field: &str) -> (r: Result<Option<(String, String)>, DatumError>)
    ensures
        match r {
            Ok(None) => parse_datum(field@) == Datum::Blank,
            Ok(Some(kv)) => parse_datum(field@) == Datum::Pair(kv.0@, kv.1@),
            Err(e) => parse_datum(field@) == Datum::Bad(e@),
        },
{
    let v = to_chars(field);
    let n = v.len();
    let d = find_delim_in(&v, 0);
    if d >= n {
        if trim_str(field).is_empty() {
            return Ok(None);
        }
        return Err(DatumError::InvalidRecipientDatum(String::from_str(field)));
    }
    proof {
        lemma_find_delim(field@, 0);
    }
    if find_delim_in(&v, d + 2) < n {
        return Err(DatumError::InvalidRecipientDatum(String::from_str(field)));
    }
    let key = trim_str(field.substring_char(0, d));
    let value = trim_str(field.substring_char(d + 2, n));
    if key.is_empty() && value.is_empty() {
        Ok(None)
    } else if key.is_empty() {
        Err(DatumError::EmptyKey(String::from_str(value)))
    } else if value.is_empty() {
        Err(DatumError::EmptyValue(String::from_str(key)))
    } else {
        Ok(Some((String::from_str(key), String::from_str(value))))
    }
}

/// Parses the optional per-recipient data, each of the form key, `:-`,
/// value.
///
/// The data are read in the order given. The result is the map of their keys
/// and values, or the error of the first datum that is not well-formed.
pub fn parse_recipient_data(rdata: &Vec<&str>) -> (r: Result<StringMap, DatumError>)
    ensures
        is_data_result(r, parse_data(views(rdata@), rdata@.len() as int)),
{
    let mut result = StringMap::new();
    let n = rdata.len();
    let mut i: usize = 0;
    while i < n
        invariant
            n == rdata.len(),
            i <= n,
            parse_data(views(rdata@), i as int) == Ok::<Map<Seq<char>, Seq<char>>, DatumErrorView>(
                result@,
            ),
        decreases n - i,
    {
        proof {
            assert(views(rdata@)[i as int] == rdata@[i as int]@);
        }
        match read_datum(rdata[i]) {
            Ok(None) => {},
            Ok(Some(kv)) => {
                let (k, v) = kv;
                result.insert(k, v);
            },
            Err(e) => {
                proof {
                    lemma_parse_data_error(views(rdata@), i + 1, n as int);
                }
                return Err(e);
            },
        }
        i += 1;
    }
    Ok(result)
}

/// An error among the first `n` data is the error of any longer run.
pub proof fn lemma_parse_data_error(data: Seq<Seq<char>>, n: int, m: int)
    requires
        n <= m,
        parse_data(data, n) is Err,
    ensures
        parse_data(data, m) == parse_data(data, n),
    decreases m - n,
{
    if n < m {
        lemma_parse_data_error(data, n, m - 1);
    }
}

/// The index of the last of the first `n` data that gives a value for the
/// key `k`, or -1 if none does.
pub open spec fn last_pair(data: Seq<Seq<char>>, n: int, k: Seq<char>) -> int
    decreases n,
{
    if n <= 0 {
        -1
    } else if parse_datum(data[n - 1]) matches Datum::Pair(key, _) && key == k {
        n - 1
    } else {
        last_pair(data, n - 1, k)
    }
}

/// `last_pair` gives an index of a datum with the key `k`, or -1.
pub proof fn lemma_last_pair(data: Seq<Seq<char>>, n: int, k: Seq<char>)
    requires
        0 <= n,
    ensures
        -1 <= last_pair(data, n, k) < n,
        last_pair(data, n, k) >= 0 ==> parse_datum(data[last_pair(data, n, k)]) is Pair
            && parse_datum(data[last_pair(data, n, k)])->Pair_0 == k,
    decreases n,
{
    if n > 0 {
        lemma_last_pair(data, n - 1, k);
    }
}

/// What the first `n` data come to depends on these `n` alone.
pub proof fn lemma_parse_data_prefix(a: Seq<Seq<char>>, b: Seq<Seq<char>>, n: int)
    requires
        forall|i: int| 0 <= i < n ==> a[i] == b[i],
    ensures
        parse_data(a, n) == parse_data(b, n),
        forall|k: Seq<char>| #[trigger] last_pair(a, n, k) == last_pair(b, n, k),
    decreases n,
{
    if n > 0 {
        lemma_parse_data_prefix(a, b, n - 1);
        assert(a[n - 1] == b[n - 1]);
        assert forall|k: Seq<char>| last_pair(a, n, k) == last_pair(b, n, k) by {
            assert(last_pair(a, n - 1, k) == last_pair(b, n - 1, k));
        }
    } else {
        assert forall|k: Seq<char>| last_pair(a, n, k) == last_pair(b, n, k) by {}
    }
}

/// The first `n` data come to a map exactly if none of them has an error.
/// The map then holds, under each key, the value of the last datum with
/// that key.
pub proof fn lemma_parse_data_ok(data: Seq<Seq<char>>, n: int)
    requires
        0 <= n,
    ensures
        parse_data(data, n) is Ok <==> forall|i: int|
            0 <= i < n ==> !(#[trigger] parse_datum(data[i]) is Bad),
        parse_data(data, n) is Ok ==> forall|k: Seq<char>|
            (parse_data(data, n)->Ok_0.contains_key(k) <==> last_pair(data, n, k) >= 0) && (
            #[trigger] last_pair(data, n, k) >= 0 ==> parse_data(data, n)->Ok_0[k] == parse_datum(
                data[last_pair(data, n, k)],
            )->Pair_1),
    decreases n,
{
    if n > 0 {
        lemma_parse_data_ok(data, n - 1);
        if parse_data(data, n - 1) is Ok && !(parse_datum(data[n - 1]) is Bad) {
            assert forall|i: int| 0 <= i < n implies !(#[trigger] parse_datum(data[i]) is Bad) by {}
        }
        if parse_data(data, n) is Ok {
            assert forall|k: Seq<char>|
                (parse_data(data, n)->Ok_0.contains_key(k) <==> last_pair(data, n, k) >= 0) && (
                #[trigger] last_pair(data, n, k) >= 0 ==> parse_data(data, n)->Ok_0[k]
                    == parse_datum(data[last_pair(data, n, k)])->Pair_1) by {
                lemma_last_pair(data, n - 1, k);
            }
        }
    }
}

/// In a list that holds `data` twice, the last datum with a given key
/// stands in the second copy where it stood in the first.
pub proof fn lemma_last_pair_twice(data: Seq<Seq<char>>, j: int, k: Seq<char>)
    requires
        0 <= j <= data.len(),
    ensures
        last_pair(data + data, data.len() + j, k) == if last_pair(data, j, k) >= 0 {
            data.len() + last_pair(data, j, k)
        } else {
            last_pair(data, data.len() as int, k)
        },
    decreases j,
{
    let twice = data + data;
    let n = data.len() as int;
    if j == 0 {
        lemma_parse_data_prefix(twice, data, n);
    } else {
        lemma_last_pair_twice(data, j - 1, k);
        assert(twice[n + j - 1] == data[j - 1]);
    }
}

/// Parsing the same data once more changes nothing: a list that holds
/// `data` twice comes to what `data` comes to, the same map or the same
/// error.
pub proof fn law_parse_data_idempotent(data: Seq<Seq<char>>)
    ensures
        parse_data(data + data, 2 * data.len() as int) == parse_data(data, data.len() as int),
{
    let twice = data + data;
    let n = data.len() as int;
    lemma_parse_data_prefix(twice, data, n);
    if parse_data(data, n) is Err {
        lemma_parse_data_error(twice, n, 2 * n);
    } else {
        lemma_parse_data_ok(data, n);
        lemma_parse_data_ok(twice, 2 * n);
        assert forall|i: int| 0 <= i < 2 * n implies !(#[trigger] parse_datum(twice[i]) is Bad) by {
            if i < n {
                assert(twice[i] == data[i]);
                assert(!(parse_datum(data[i]) is Bad));
            } else {
                assert(twice[i] == data[i - n]);
                assert(!(parse_datum(data[i - n]) is Bad));
            }
        }
        let m = parse_data(data, n)->Ok_0;
        let m2 = parse_data(twice, 2 * n)->Ok_0;
        assert forall|k: Seq<char>| m.contains_key(k) <==> m2.contains_key(k) by {
            lemma_last_pair_twice(data, n, k);
            lemma_last_pair(data, n, k);
            assert(last_pair(twice, 2 * n, k) >= 0 <==> last_pair(data, n, k) >= 0);
        }
        assert forall|k: Seq<char>| m.contains_key(k) implies m[k] == m2[k] by {
            lemma_last_pair_twice(data, n, k);
            lemma_last_pair(data, n, k);
            let at = last_pair(data, n, k);
            assert(last_pair(twice, 2 * n, k) == n + at);
            assert(twice[n + at] == data[at]);
        }
        assert(m =~= m2);
    }
}

/// Parsing is a function of the data: whatever two runs over the same data
/// return, it is the same map, or the same error.
pub proof fn law_parse_data_deterministic(
    data: Seq<Seq<char>>,
    first: Result<StringMap, DatumError>,
    second: Result<StringMap, DatumError>,
)
    requires
        is_data_result(first, parse_data(data, data.len() as int)),
        is_data_result(second, parse_data(data, data.len() as int)),
    ensures
        first is Ok <==> second is Ok,
        first is Ok ==> first->Ok_0@ == second->Ok_0@,
        first is Err ==> first->Err_0@ == second->Err_0@,
{
}

/// What the entry of one recipient comes to: `key` is the email address,
/// `value` holds the names and then the data, parted by `|`.
pub open spec fn parse_recipient(key: Seq<char>, value: Seq<char>) -> Result<
    RecipientView,
    ConfigErrorView,
> {
    let data = fields(value, '|');
    if !is_valid_email(key) {
        Err(ConfigErrorView::InvalidRecipientEmail(key))
    } else if data.len() == 0 {
        Err(ConfigErrorView::EmptyRecipientData(key))
    } else {
        match parse_data(data.skip(1), data.len() - 1) {
            Ok(m) => Ok(RecipientView { email: key, names: words(data[0]), data: m }),
            Err(e) => Err(ConfigErrorView::RecipientDataError { email: key, inner: e }),
        }
    }
}

/// What the first `n` entries come to, read in order: the recipients, or
/// the error of the first entry that has one.
pub open spec fn recipients_upto(keys: Seq<Seq<char>>, vals: Seq<Seq<char>>, n: int) -> Result<
    Seq<RecipientView>,
    ConfigErrorView,
>
    decreases n,
{
    if n <= 0 {
        Ok(seq![])
    } else {
        match recipients_upto(keys, vals, n - 1) {
            Err(e) => Err(e),
            Ok(rs) => match parse_recipient(keys[n - 1], vals[n - 1]) {
                Ok(r) => Ok(rs.push(r)),
                Err(e) => Err(e),
            },
        }
    }
}

/// What the section of the recipients comes to: its entries, read in the
/// lexicographic order of their keys.
pub open spec fn recipients_spec(section: StringMap) -> Result<Seq<RecipientView>, ConfigErrorView> {
    recipients_upto(section.keys(), section.vals(), section.keys().len() as int)
}

/// Whether `r` is `expected`, with recipients taken as their views.
pub open spec fn is_recipients_result(
    r: Result<Vec<Recipient>, ConfigError>,
    expected: Result<Seq<RecipientView>, ConfigErrorView>,
) -> bool {
    match r {
        Ok(list) => expected == Ok::<Seq<RecipientView>, ConfigErrorView>(views(list@)),
        Err(e) => expected == Err::<Seq<RecipientView>, ConfigErrorView>(e@),
    }
}

/// The recipients stand in strictly ascending order of their email
/// addresses.
pub open spec fn sorted_by_email(rs: Seq<RecipientView>) -> bool {
    forall|i: int, j: int| 0 <= i < j < rs.len() ==> lex_lt(#[trigger] rs[i].email, #[trigger] rs[j].email)
}

/// An error among the first `n` entries is the error of any longer run.
pub proof fn lemma_recipients_error(keys: Seq<Seq<char>>, vals: Seq<Seq<char>>, n: int, m: int)
    requires
        n <= m,
        recipients_upto(keys, vals, n) is Err,
    ensures
        recipients_upto(keys, vals, m) == recipients_upto(keys, vals, n),
    decreases m - n,
{
    if n < m {
        lemma_recipients_error(keys, vals, n, m - 1);
    }
}

/// Where the entries are all well-formed there is one recipient for each,
/// under the entry's key.
pub proof fn lemma_recipients_emails(keys: Seq<Seq<char>>, vals: Seq<Seq<char>>, n: int)
    requires
        0 <= n,
        recipients_upto(keys, vals, n) is Ok,
    ensures
        recipients_upto(keys, vals, n)->Ok_0.len() == n,
        forall|i: int|
            0 <= i < n ==> (#[trigger] recipients_upto(keys, vals, n)->Ok_0[i]).email == keys[i],
    decreases n,
{
    if n > 0 {
        lemma_recipients_emails(keys, vals, n - 1);
    }
}

/// Every recipient that a section gives has a valid email address.
pub proof fn lemma_recipients_valid(keys: Seq<Seq<char>>, vals: Seq<Seq<char>>, n: int)
    requires
        0 <= n,
        recipients_upto(keys, vals, n) is Ok,
    ensures
        forall|i: int|
            0 <= i < recipients_upto(keys, vals, n)->Ok_0.len() ==> is_valid_email(
                (#[trigger] recipients_upto(keys, vals, n)->Ok_0[i]).email,
            ),
    decreases n,
{
    if n > 0 {
        lemma_recipients_valid(keys, vals, n - 1);
    }
}

/// The recipients do not depend on the order in which the entries of the
/// section were put in: two sections that hold the same values under the
/// same keys give the same recipients, or the same error.
pub proof fn law_recipients_order_independent(first: StringMap, second: StringMap)
    requires
        first.wf(),
        second.wf(),
        first@ == second@,
    ensures
        recipients_spec(first) == recipients_spec(second),
{
    first.lemma_same_view(&second);
}

/// The recipients that a section gives stand in the order of their email
/// addresses, and there is one for each entry.
pub proof fn law_recipients_sorted(section: StringMap)
    requires
        section.wf(),
        recipients_spec(section) is Ok,
    ensures
        sorted_by_email(recipients_spec(section)->Ok_0),
        recipients_spec(section)->Ok_0.len() == section@.dom().len(),
{
    section.lemma_entries();
    let keys = section.keys();
    let rs = recipients_spec(section)->Ok_0;
    lemma_recipients_emails(keys, section.vals(), keys.len() as int);
    assert forall|i: int, j: int| 0 <= i < j < rs.len() implies lex_lt(
        #[trigger] rs[i].email,
        #[trigger] rs[j].email,
    ) by {
        assert(lex_lt(keys[i], keys[j]));
    }
}

/// Reads the entry of one recipient.
pub fn read_recipient(key: &str, value: &str) -> (r: Result<Recipient, ConfigError>)
    ensures
        match r {
            Ok(rcp) => parse_recipient(key@, value@) == Ok::<RecipientView, ConfigErrorView>(rcp@),
            Err(e) => parse_recipient(key@, value@) == Err::<RecipientView, ConfigErrorView>(e@),
        },
{
    if !check_email(key) {
        return Err(ConfigError::InvalidRecipientEmail(String::from_str(key)));
    }
    // the names, then the data: `John Doe Jr.|ORG:-EFF|TITLE:-PhD`
    let mut data = split_fields(value, '|');
    if data.len() == 0 {
        return Err(ConfigError::EmptyRecipientData(String::from_str(key)));
    }
    let ghost all = views(data@);
    proof {
        assert(all[0] == data@[0]@);
    }
    let first = data.remove(0);
    proof {
        assert(views(data@) =~= all.skip(1));
    }
    let names = split_words(first);
    match parse_recipient_data(&data) {
        Ok(rd) => Ok(Recipient { email: String::from_str(key), names, data: rd }),
        Err(inner) => Err(ConfigError::RecipientDataError { email: String::from_str(key), inner }),
    }
}

/// Parses the section of the recipients.
///
/// The entries are read in the lexicographic order of their keys, so the
/// recipients come out in the order of their email addresses.
pub fn parse_recipients(cfg: &Sections) -> (r: Result<Vec<Recipient>, ConfigError>)
    requires
        cfg.recipients is Some,
    ensures
        is_recipients_result(r, recipients_spec(cfg.recipients->Some_0)),
        r matches Ok(list) ==> sorted_by_email(views(list@)) && list@.len()
            == cfg.recipients->Some_0@.dom().len(),
{
    let section = match &cfg.recipients {
        Some(s) => s,
        None => {
            return Ok(Vec::new());
        },
    };
    let entries = section.entries();
    let ghost keys = section.keys();
    let ghost vals = section.vals();
    let ghost whole = recipients_spec(*section);
    let mut result: Vec<Recipient> = Vec::new();
    let n = entries.len();
    let mut i: usize = 0;
    proof {
        use_type_invariant(section);
        section.lemma_entries();
        assert(views(result@) =~= seq![]);
    }
    while i < n
        invariant
            n == entries.len(),
            i <= n,
            keys == keys_of(entries@),
            vals == vals_of(entries@),
            whole == recipients_upto(keys, vals, n as int),
            whole == recipients_spec(cfg.recipients->Some_0),
            recipients_upto(keys, vals, i as int) == Ok::<Seq<RecipientView>, ConfigErrorView>(
                views(result@),
            ),
        decreases n - i,
    {
        match read_recipient(entries[i].0.as_str(), entries[i].1.as_str()) {
            Ok(rcp) => {
                proof {
                    assert(views(result@.push(rcp)) =~= views(result@).push(rcp@));
                }
                result.push(rcp);
            },
            Err(e) => {
                proof {
                    lemma_recipients_error(keys, vals, i + 1, n as int);
                }
                return Err(e);
            },
        }
        i += 1;
    }
    proof {
        lemma_recipients_emails(keys, vals, n as int);
        let rs = views(result@);
        assert forall|i: int, j: int| 0 <= i < j < rs.len() implies lex_lt(
            #[trigger] rs[i].email,
            #[trigger] rs[j].email,
        ) by {
            assert(lex_lt(keys[i], keys[j]));
        }
    }
    Ok(result)
}

/// The configuration in which nothing is set.
pub open spec fn empty_config() -> ConfigView {
    ConfigView { from: seq![], subject: seq![], cc: seq![], replyto: seq![], recipients: seq![] }
}

/// Whether `key` names the sender.
pub open spec fn is_from_key(key: Seq<char>) -> bool {
    key == "From"@ || key == "from"@
}

/// What one entry of the general section does to the configuration `c`.
/// The keys are `From`, `Reply-To`, `Cc` and `Subject`, each also in lower
/// case, and `CC`; any other key is an error.
pub open spec fn apply_general(c: ConfigView, key: Seq<char>, value: Seq<char>) -> Result<
    ConfigView,
    ConfigErrorView,
> {
    if key == "From"@ || key == "from"@ {
        if is_valid_email(value) {
            Ok(ConfigView { from: value, ..c })
        } else {
            Err(ConfigErrorView::InvalidFrom(value))
        }
    } else if key == "Reply-To"@ || key == "reply-to"@ {
        match address_list("Reply-To"@, value) {
            Ok(list) => Ok(ConfigView { replyto: list, ..c }),
            Err(e) => Err(e),
        }
    } else if key == "cc"@ || key == "Cc"@ || key == "CC"@ {
        match address_list(key, value) {
            Ok(list) => Ok(ConfigView { cc: list, ..c }),
            Err(e) => Err(e),
        }
    } else if key == "Subject"@ || key == "subject"@ {
        Ok(ConfigView { subject: value, ..c })
    } else {
        Err(ConfigErrorView::UnrecognizedDatum(key))
    }
}

/// What the first `n` entries of the general section come to, read in
/// order: a configuration without recipients, or the error of the first
/// entry that has one.
pub open spec fn general_upto(keys: Seq<Seq<char>>, vals: Seq<Seq<char>>, n: int) -> Result<
    ConfigView,
    ConfigErrorView,
>
    decreases n,
{
    if n <= 0 {
        Ok(empty_config())
    } else {
        match general_upto(keys, vals, n - 1) {
            Err(e) => Err(e),
            Ok(c) => apply_general(c, keys[n - 1], vals[n - 1]),
        }
    }
}

/// What the general section comes to: its entries, read in the
/// lexicographic order of their keys.
pub open spec fn general_spec(section: StringMap) -> Result<ConfigView, ConfigErrorView> {
    general_upto(section.keys(), section.vals(), section.keys().len() as int)
}

/// Whether `r` is `expected`, with the configuration taken as its view.
pub open spec fn is_config_result(
    r: Result<Config, ConfigError>,
    expected: Result<ConfigView, ConfigErrorView>,
) -> bool {
    match r {
        Ok(c) => expected == Ok::<ConfigView, ConfigErrorView>(c@),
        Err(e) => expected == Err::<ConfigView, ConfigErrorView>(e@),
    }
}

/// An error among the first `n` entries is the error of any longer run.
pub proof fn lemma_general_error(keys: Seq<Seq<char>>, vals: Seq<Seq<char>>, n: int, m: int)
    requires
        n <= m,
        general_upto(keys, vals, n) is Err,
    ensures
        general_upto(keys, vals, m) == general_upto(keys, vals, n),
    decreases m - n,
{
    if n < m {
        lemma_general_error(keys, vals, n, m - 1);
    }
}

/// If the entry at `i` fails, that is what the whole section comes to.
pub proof fn lemma_general_step(keys: Seq<Seq<char>>, vals: Seq<Seq<char>>, i: int, n: int)
    requires
        0 <= i < n,
        general_upto(keys, vals, i) is Ok,
    ensures
        general_upto(keys, vals, i + 1) is Err ==> general_upto(keys, vals, n) == general_upto(
            keys,
            vals,
            i + 1,
        ),
{
    if general_upto(keys, vals, i + 1) is Err {
        lemma_general_error(keys, vals, i + 1, n);
    }
}

/// What the general section gives where it succeeds: lists of addresses
/// for the copies and the replies, no recipients yet, and a sender that is
/// valid if the section names one at all.
pub proof fn lemma_general_settled(keys: Seq<Seq<char>>, vals: Seq<Seq<char>>, n: int)
    requires
        0 <= n,
        general_upto(keys, vals, n) is Ok,
    ensures
        is_address_list(general_upto(keys, vals, n)->Ok_0.cc),
        is_address_list(general_upto(keys, vals, n)->Ok_0.replyto),
        general_upto(keys, vals, n)->Ok_0.recipients.len() == 0,
        (exists|i: int| 0 <= i < n && is_from_key(#[trigger] keys[i])) ==> is_valid_email(
            general_upto(keys, vals, n)->Ok_0.from,
        ),
    decreases n,
{
    if n > 0 {
        lemma_general_settled(keys, vals, n - 1);
        let key = keys[n - 1];
        let value = vals[n - 1];
        if is_from_key(key) {
        } else {
            if key == "Reply-To"@ || key == "reply-to"@ {
                lemma_address_list("Reply-To"@, value);
            } else if key == "cc"@ || key == "Cc"@ || key == "CC"@ {
                lemma_address_list(key, value);
            }
            if exists|i: int| 0 <= i < n && is_from_key(#[trigger] keys[i]) {
                let i = choose|i: int| 0 <= i < n && is_from_key(#[trigger] keys[i]);
                assert(0 <= i < n - 1 && is_from_key(keys[i]));
            }
        }
    }
}

/// Parses the general section; returns a configuration that has everything
/// but the recipients.
pub fn parse_general(cfg: &Sections) -> (r: Result<Config, ConfigError>)
    requires
        cfg.general is Some,
    ensures
        is_config_result(r, general_spec(cfg.general->Some_0)),
        r matches Ok(c) ==> is_address_list(c@.cc) && is_address_list(c@.replyto)
            && c@.recipients.len() == 0,
{
    let mut result = Config {
        from: String::new(),
        subject: String::new(),
        cc: Vec::new(),
        replyto: Vec::new(),
        recipients: Vec::new(),
    };
    let section = match &cfg.general {
        Some(s) => s,
        None => {
            return Ok(result);
        },
    };
    let entries = section.entries();
    let ghost keys = section.keys();
    let ghost vals = section.vals();
    let ghost whole = general_spec(*section);
    let n = entries.len();
    let mut i: usize = 0;
    proof {
        assert(views(result.cc@) =~= seq![]);
        assert(views(result.recipients@) =~= seq![]);
        assert(result.from@ =~= seq![]);
        assert(result.subject@ =~= seq![]);
    }
    while i < n
        invariant
            n == entries.len(),
            i <= n,
            keys == keys_of(entries@),
            vals == vals_of(entries@),
            whole == general_upto(keys, vals, n as int),
            whole == general_spec(cfg.general->Some_0),
            general_upto(keys, vals, i as int) == Ok::<ConfigView, ConfigErrorView>(result@),
        decreases n - i,
    {
        let key = entries[i].0.as_str();
        let val = entries[i].1.as_str();
        let ghost before = result@;
        proof {
            lemma_general_step(keys, vals, i as int, n as int);
        }
        if same(key, "From") || same(key, "from") {
            if !check_email(val) {
                return Err(ConfigError::InvalidFrom(String::from_str(val)));
            }
            result.from = String::from_str(val);
        } else if same(key, "Reply-To") || same(key, "reply-to") {
            match read_address_list("Reply-To", val) {
                Ok(list) => {
                    result.replyto = list;
                },
                Err(e) => {
                    return Err(e);
                },
            }
        } else if same(key, "cc") || same(key, "Cc") || same(key, "CC") {
            match read_address_list(key, val) {
                Ok(list) => {
                    result.cc = list;
                },
                Err(e) => {
                    return Err(e);
                },
            }
        } else if same(key, "Subject") || same(key, "subject") {
            result.subject = String::from_str(val);
        } else {
            return Err(ConfigError::UnrecognizedDatum(String::from_str(key)));
        }
        i += 1;
    }
    proof {
        lemma_general_settled(keys, vals, n as int);
    }
    Ok(result)
}

/// What the two sections come to: the configuration of the general
/// section with the recipients of the other. An error in the general
/// section comes before one among the recipients.
pub open spec fn parse_spec(general: StringMap, recipients: StringMap) -> Result<
    ConfigView,
    ConfigErrorView,
> {
    match general_spec(general) {
        Err(e) => Err(e),
        Ok(c) => match recipients_spec(recipients) {
            Err(e) => Err(e),
            Ok(rs) => Ok(ConfigView { recipients: rs, ..c }),
        },
    }
}

/// The configuration does not depend on the order in which the entries of
/// the sections were put in: sections that hold the same values under the
/// same keys give the same configuration, or the same error.
pub proof fn law_config_order_independent(
    general: StringMap,
    recipients: StringMap,
    other_general: StringMap,
    other_recipients: StringMap,
)
    requires
        general.wf(),
        recipients.wf(),
        other_general.wf(),
        other_recipients.wf(),
        general@ == other_general@,
        recipients@ == other_recipients@,
    ensures
        parse_spec(general, recipients) == parse_spec(other_general, other_recipients),
{
    general.lemma_same_view(&other_general);
    recipients.lemma_same_view(&other_recipients);
}

/// Top-level configuration parsing function.
pub fn parse(cfg: &Sections) -> (r: Result<Config, ConfigError>)
    requires
        cfg.general is Some,
        cfg.recipients is Some,
    ensures
        is_config_result(r, parse_spec(cfg.general->Some_0, cfg.recipients->Some_0)),
        r matches Ok(c) ==> is_address_list(c@.cc) && is_address_list(c@.replyto)
            && sorted_by_email(c@.recipients) && c@.recipients.len()
            == cfg.recipients->Some_0@.dom().len(),
{
    let mut result = match parse_general(cfg) {
        Ok(c) => c,
        Err(e) => {
            return Err(e);
        },
    };
    match parse_recipients(cfg) {
        Ok(rs) => {
            result.recipients = rs;
        },
        Err(e) => {
            return Err(e);
        },
    }
    Ok(result)
}

/// What the basic checks come to: the number of recipients if both
/// sections are there, the general one names a sender and a subject, and
/// there is at least one recipient; else the first of these that fails.
pub open spec fn check_spec(
    general: Option<Map<Seq<char>, Seq<char>>>,
    recipients: Option<Map<Seq<char>, Seq<char>>>,
) -> Result<nat, ConfigErrorView> {
    if general is None {
        Err(ConfigErrorView::MissingSection("general"@))
    } else if !general->Some_0.contains_key("From"@) && !general->Some_0.contains_key("from"@) {
        Err(ConfigErrorView::MissingFrom)
    } else if !general->Some_0.contains_key("Subject"@) && !general->Some_0.contains_key(
        "subject"@,
    ) {
        Err(ConfigErrorView::MissingSubject)
    } else if recipients is None {
        Err(ConfigErrorView::MissingSection("recipients"@))
    } else if recipients->Some_0.dom().len() == 0 {
        Err(ConfigErrorView::NoRecipients)
    } else {
        Ok(recipients->Some_0.dom().len())
    }
}

/// The view of a section that may be absent.
pub open spec fn section_view(s: Option<StringMap>) -> Option<Map<Seq<char>, Seq<char>>> {
    match s {
        Some(m) => Some(m@),
        None => None,
    }
}

/// Very basic sanity checks on the configuration.
///
/// Does it have the general and the recipients section, does the former
/// have a `From` and a `Subject`, and is there at least one recipient?
/// Returns the number of recipients.
pub fn check(cfg: &Sections) -> (r: Result<usize, ConfigError>)
    ensures
        match r {
            Ok(n) => check_spec(section_view(cfg.general), section_view(cfg.recipients)) == Ok::<
                nat,
                ConfigErrorView,
            >(n as nat),
            Err(e) => check_spec(section_view(cfg.general), section_view(cfg.recipients)) == Err::<
                nat,
                ConfigErrorView,
            >(e@),
        },
{
    match &cfg.general {
        Some(props) => {
            if !props.contains_key("From") && !props.contains_key("from") {
                return Err(ConfigError::MissingFrom);
            }
            if !props.contains_key("Subject") && !props.contains_key("subject") {
                return Err(ConfigError::MissingSubject);
            }
        },
        None => {
            return Err(ConfigError::MissingSection(String::from_str("general")));
        },
    }
    match &cfg.recipients {
        Some(props) => {
            let num_recipients = props.len();
            if num_recipients == 0 {
                return Err(ConfigError::NoRecipients);
            }
            Ok(num_recipients)
        },
        None => Err(ConfigError::MissingSection(String::from_str("recipients"))),
    }
}

/// What the two sections come to as a whole: the error of the basic checks
/// if one fails, else what parsing gives.
pub open spec fn instantiate_spec(general: Option<StringMap>, recipients: Option<StringMap>) -> Result<
    ConfigView,
    ConfigErrorView,
> {
    match check_spec(section_view(general), section_view(recipients)) {
        Err(e) => Err(e),
        Ok(_) => parse_spec(general->Some_0, recipients->Some_0),
    }
}

/// `c` holds what a configuration must: a valid sender, lists of addresses
/// for the copies and the replies, and at least one recipient, the
/// recipients under valid addresses and in the order of these.
pub open spec fn is_settled(c: ConfigView) -> bool {
    &&& is_valid_email(c.from)
    &&& is_address_list(c.cc)
    &&& is_address_list(c.replyto)
    &&& c.recipients.len() > 0
    &&& sorted_by_email(c.recipients)
    &&& forall|i: int| 0 <= i < c.recipients.len() ==> is_valid_email((#[trigger] c.recipients[i]).email)
}

/// A configuration that passed the basic checks and the parsing holds what
/// a configuration must.
pub proof fn law_config_settled(general: StringMap, recipients: StringMap)
    requires
        general.wf(),
        recipients.wf(),
        instantiate_spec(Some(general), Some(recipients)) is Ok,
    ensures
        is_settled(instantiate_spec(Some(general), Some(recipients))->Ok_0),
{
    general.lemma_entries();
    recipients.lemma_entries();
    let keys = general.keys();
    let n = keys.len() as int;
    lemma_general_settled(keys, general.vals(), n);
    assert(exists|i: int| 0 <= i < n && is_from_key(#[trigger] keys[i])) by {
        let k = if general@.contains_key("From"@) {
            "From"@
        } else {
            "from"@
        };
        assert(keys.contains(k));
        let i = choose|i: int| 0 <= i < n && keys[i] == k;
        assert(is_from_key(keys[i]));
    }
    law_recipients_sorted(recipients);
    lemma_recipients_valid(recipients.keys(), recipients.vals(), recipients.keys().len() as int);
}

/// Builds the configuration from its two sections: first the basic checks,
/// then the parsing.
///
/// A configuration that comes out of this has a valid sender and at least
/// one recipient, its recipients are in the order of their email addresses,
/// and its lists of copies and replies hold valid addresses, each once.
pub fn instantiate(cfg: &Sections) -> (r: Result<Config, ConfigError>)
    ensures
        is_config_result(r, instantiate_spec(cfg.general, cfg.recipients)),
        r matches Ok(c) ==> is_settled(c@),
{
    match check(cfg) {
        Ok(_) => {},
        Err(e) => {
            return Err(e);
        },
    }
    let r = parse(cfg);
    proof {
        if r is Ok {
            match (&cfg.general, &cfg.recipients) {
                (Some(general), Some(recipients)) => {
                    use_type_invariant(general);
                    use_type_invariant(recipients);
                    law_config_settled(*general, *recipients);
                },
                _ => {},
            }
        }
    }
    r
}

impl Config {
    /// The sender.
    pub fn from(&self) -> (r: &String)
        ensures
            r@ == self@.from,
    {
        &self.from
    }

    /// The subject.
    pub fn subject(&self) -> (r: &String)
        ensures
            r@ == self@.subject,
    {
        &self.subject
    }

    /// Who gets a copy.
    pub fn cc(&self) -> (r: &Vec<String>)
        ensures
            views(r@) == self@.cc,
    {
        &self.cc
    }

    /// Whom to reply to.
    pub fn replyto(&self) -> (r: &Vec<String>)
        ensures
            views(r@) == self@.replyto,
    {
        &self.replyto
    }

    /// Who should receive the email.
    pub fn recipients(&self) -> (r: &Vec<Recipient>)
        ensures
            views(r@) == self@.recipients,
    {
        &self.recipients
    }
}

/// The lines `key => value` for the first `n` of `keys`, with the values
/// that `data` holds for them.
pub open spec fn entry_lines(keys: Seq<Seq<char>>, data: Map<Seq<char>, Seq<char>>, n: int) -> Seq<
    Seq<char>,
>
    decreases n,
{
    if n <= 0 {
        seq![]
    } else {
        entry_lines(keys, data, n - 1).push(keys[n - 1] + " => "@ + data[keys[n - 1]])
    }
}

/// The lines `key => value` of `data`, in lexicographic order of the
/// lines.
pub open spec fn data_lines(data: Map<Seq<char>, Seq<char>>) -> Seq<Seq<char>> {
    sort(entry_lines(sorted_elems(data.dom()), data, sorted_elems(data.dom()).len() as int))
}

/// How a recipient is printed.
pub open spec fn recipient_text(r: RecipientView) -> Seq<char> {
    "email: "@ + r.email + ", names: "@ + join(r.names, ", "@) + ", data: "@ + join(
        data_lines(r.data),
        ", "@,
    )
}

impl Recipient {
    /// The recipient as one line of text: the email address, the names, and
    /// the data as `key => value`, sorted.
    pub fn to_string(&self) -> (r: String)
        ensures
            r@ == recipient_text(self@),
    {
        let entries = self.data.entries();
        let ghost keys = keys_of(entries@);
        let mut dv: Vec<String> = Vec::new();
        let n = entries.len();
        let mut i: usize = 0;
        proof {
            assert(views(dv@) =~= seq![]);
        }
        while i < n
            invariant
                n == entries.len(),
                i <= n,
                keys == keys_of(entries@),
                forall|j: int| 0 <= j < n ==> self.data@[#[trigger] keys[j]] == vals_of(entries@)[j],
                views(dv@) == entry_lines(keys, self.data@, i as int),
            decreases n - i,
        {
            let line = String::from_str(entries[i].0.as_str()).concat(" => ").concat(
                entries[i].1.as_str(),
            );
            proof {
                assert(keys[i as int] == entries@[i as int].0@);
                assert(vals_of(entries@)[i as int] == entries@[i as int].1@);
                assert(views(dv@.push(line)) =~= views(dv@).push(line@));
            }
            dv.push(line);
            i += 1;
        }
        let dv = sort_strings(&dv);
        let names = join_strings(&self.names, ", ");
        let data = join_strings(&dv, ", ");
        String::from_str("email: ").concat(self.email.as_str()).concat(", names: ").concat(
            names.as_str(),
        ).concat(", data: ").concat(data.as_str())
    }
}

/// The recipients from index `from` on, each between braces and after a
/// comma.
pub open spec fn more_recipients(rs: Seq<RecipientView>, n: int) -> Seq<char>
    decreases n,
{
    if n <= 1 {
        seq![]
    } else {
        more_recipients(rs, n - 1) + ", {"@ + recipient_text(rs[n - 1]) + "}"@
    }
}

/// How a configuration is printed.
pub open spec fn config_text(c: ConfigView) -> Seq<char> {
    "from: "@ + c.from + ", subject: "@ + c.subject + (if c.cc.len() > 0 {
        ", cc: "@ + join(c.cc, ", "@)
    } else {
        seq![]
    }) + (if c.replyto.len() > 0 {
        ", replyto: "@ + join(c.replyto, ", "@)
    } else {
        seq![]
    }) + ", recipients: {"@ + recipient_text(c.recipients[0]) + "}"@ + more_recipients(
        c.recipients,
        c.recipients.len() as int,
    )
}

impl Config {
    /// The configuration as one line of text: sender, subject, the copies
    /// and reply addresses if there are any, and the recipients.
    pub fn to_string(&self) -> (r: String)
        requires
            self@.recipients.len() > 0,
        ensures
            r@ == config_text(self@),
    {
        let mut result = String::from_str("from: ").concat(self.from.as_str()).concat(
            ", subject: ",
        ).concat(self.subject.as_str());
        if self.cc.len() > 0 {
            let list = join_strings(&self.cc, ", ");
            result = result.concat(", cc: ").concat(list.as_str());
        }
        if self.replyto.len() > 0 {
            let list = join_strings(&self.replyto, ", ");
            result = result.concat(", replyto: ").concat(list.as_str());
        }
        let first = self.recipients[0].to_string();
        result = result.concat(", recipients: {").concat(first.as_str()).concat("}");
        let ghost head = result@;
        let ghost rs = views(self.recipients@);
        let n = self.recipients.len();
        let mut i: usize = 1;
        proof {
            assert(rs[0] == self.recipients@[0]@);
            assert(head + more_recipients(rs, 1) =~= head);
        }
        while i < n
            invariant
                n == self.recipients.len(),
                1 <= i <= n,
                rs == views(self.recipients@),
                result@ == head + more_recipients(rs, i as int),
            decreases n - i,
        {
            let text = self.recipients[i].to_string();
            proof {
                assert(rs[i as int] == self.recipients@[i as int]@);
                assert((head + more_recipients(rs, i as int)) + ", {"@ + text@ + "}"@ =~= head + (
                more_recipients(rs, i as int) + ", {"@ + text@ + "}"@));
            }
            result = result.concat(", {").concat(text.as_str()).concat("}");
            i += 1;
        }
        result
    }
}

/// What follows the version in a sample configuration.
pub const SAMPLE_CONFIG_BODY: &'static str = r#"
#
# anything that follows a hash is a comment
# email address is to the left of the '=' sign, first word after is
# the first name, the rest is the surname
[general]
From="Frodo Baggins" <rts@example.com>
#cc=weirdo@nsb.gov, cc@example.com
#Reply-To="John Doe" <jd@mail.com>
subject=Hello %FN%!
#attachments=/home/user/atmt1.ics, ../Documents/doc2.txt
[recipients]
# The 'cc' setting below *redefines* the global 'cc' value above
jd@example.com=John Doe Jr.|ORG:-EFF|TITLE:-PhD|cc:-bl@kf.io,info@ex.org
mm@gmail.com=Mickey Mouse|ORG:-Disney   # trailing comment!!
# The 'cc' setting below *adds* to the global 'cc' value above
daisy@example.com=Daisy Lila|ORG:-NASA|TITLE:-Dr.|cc:-+inc@gg.org"#;

/// What stands before the tool's name in a sample template.
pub const SAMPLE_TEMPLATE_HEAD: &'static str = r#"FN / LN / EA = first name / last name / email address

Hello %FN% // %LN%, how are things going at %ORG%?
this is your email: %EA% :)


Sent with "#;

/// The sample configuration that `gen_config` gives.
pub open spec fn sample_config(name: Seq<char>, version: Seq<char>) -> Seq<char> {
    "# "@ + name + " version "@ + version + SAMPLE_CONFIG_BODY@
}

/// The sample template that `gen_template` gives.
pub open spec fn sample_template(name: Seq<char>, version: Seq<char>) -> Seq<char> {
    SAMPLE_TEMPLATE_HEAD@ + name + " version "@ + version + ", see https://301.mx/"@ + name
        + " for details"@
}

/// Generates a configuration for a mailing campaign for a user to tweak as
/// needed. `name` and `version` are those of the tool, for the first line.
pub fn gen_config(name: &str, version: &str) -> (r: String)
    ensures
        r@ == sample_config(name@, version@),
{
    String::from_str("# ").concat(name).concat(" version ").concat(version).concat(
        SAMPLE_CONFIG_BODY,
    )
}

/// Generates a template for a mailing campaign for a user to tweak as
/// needed. `name` and `version` are those of the tool, for the last line.
pub fn gen_template(name: &str, version: &str) -> (r: String)
    ensures
        r@ == sample_template(name@, version@),
{
    String::from_str(SAMPLE_TEMPLATE_HEAD).concat(name).concat(" version ").concat(version).concat(
        ", see https://301.mx/",
    ).concat(name).concat(" for details")
}

} // verus!
