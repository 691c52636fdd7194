use rmt::config::{
    check, check_email, check_emails, instantiate, parse, parse_general, parse_recipient_data,
    parse_recipients, read_datum, sa, sm, Recipient, Sections,
};
use rmt::error::{ConfigError, DatumError};
use rmt::table::{StringMap, StringSet};
use rmt::template::{is_auto_key, new};

fn map_of(pairs: &[(&str, &str)]) -> StringMap {
    let mut map = StringMap::new();
    for (key, value) in pairs {
        map.insert(key.to_string(), value.to_string());
    }
    map
}

fn sections(general: &[(&str, &str)], recipients: &[(&str, &str)]) -> Sections {
    Sections { general: Some(map_of(general)), recipients: Some(map_of(recipients)) }
}

fn set_of(keys: &[&str]) -> StringSet {
    let mut set = StringSet::new();
    for key in keys {
        set.insert(key.to_string());
    }
    set
}

#[test]
fn an_empty_list_of_addresses_is_an_error() {
    assert_eq!(Err(ConfigError::NoEmails(String::from("Cc"))), check_emails("Cc", ""));
}

#[test]
fn invalid_addresses_are_listed_alone() {
    assert_eq!(
        Err(ConfigError::InvalidEmails { header: String::from("Cc"), offending: sa(&["bad"]) }),
        check_emails("Cc", "a@b.com, bad")
    );
}

#[test]
fn valid_addresses_come_back_sorted() {
    assert_eq!(
        Ok(sa(&["\"A B\" <a@b.com>", "cc@example.com", "weirdo@nsb.gov"])),
        check_emails("cc", "weirdo@nsb.gov, cc@example.com,\"A B\" <a@b.com>")
    );
}

#[test]
fn data_become_a_map() {
    let expected = sm(&[("ORG", "EFF"), ("TITLE", "PhD"), ("cc", "bl@kf.io,info@ex.org")]);
    assert_eq!(
        Ok(expected),
        parse_recipient_data(&vec!["ORG:-EFF", "TITLE:-PhD", "cc:-bl@kf.io,info@ex.org"])
    );
}

#[test]
fn a_datum_without_key_is_an_error() {
    assert_eq!(
        Err(DatumError::EmptyKey(String::from("Disney"))),
        parse_recipient_data(&vec![":-Disney"])
    );
}

#[test]
fn a_datum_without_value_is_an_error() {
    assert_eq!(
        Err(DatumError::EmptyValue(String::from("ORG"))),
        parse_recipient_data(&vec!["ORG:-"])
    );
}

#[test]
fn a_datum_with_two_delimiters_is_an_error() {
    assert_eq!(
        Err(DatumError::InvalidRecipientDatum(String::from(" a:-b:-c "))),
        parse_recipient_data(&vec!["x:-y", " a:-b:-c ", ":-z"])
    );
    assert_eq!(
        Err(DatumError::InvalidRecipientDatum(String::from("no delimiter"))),
        parse_recipient_data(&vec!["no delimiter"])
    );
    assert_eq!(
        Err(DatumError::InvalidRecipientDatum(String::from(":-:-"))),
        parse_recipient_data(&vec![":-:-"])
    );
}

#[test]
fn the_first_error_is_reported() {
    assert_eq!(
        Err(DatumError::EmptyValue(String::from("a"))),
        parse_recipient_data(&vec!["k:-v", "a:-", ":-b", "c"])
    );
}

#[test]
fn blank_data_are_passed_over() {
    assert_eq!(Ok(StringMap::new()), parse_recipient_data(&vec![]));
    assert_eq!(Ok(StringMap::new()), parse_recipient_data(&vec!["", "   ", ":-", "  :-  "]));
    assert_eq!(Ok(None), read_datum(" \t "));
    assert_eq!(Ok(None), read_datum(" :- "));
}

#[test]
fn a_datum_is_cut_at_its_delimiter_and_trimmed() {
    assert_eq!(Ok(Some((String::from("a"), String::from("b")))), read_datum("  a :-\tb "));
    assert_eq!(Ok(Some((String::from("a"), String::from("-b")))), read_datum("a:--b"));
    assert_eq!(Ok(Some((String::from("a:"), String::from("b")))), read_datum("a::-b"));
    assert_eq!(Ok(Some((String::from("a b"), String::from("c:d-e")))), read_datum("a b:-c:d-e"));
    assert_eq!(Err(DatumError::InvalidRecipientDatum(String::from(":"))), read_datum(":"));
    assert_eq!(Err(DatumError::InvalidRecipientDatum(String::from("-:"))), read_datum("-:"));
}

#[test]
fn a_later_value_takes_the_place_of_an_earlier_one() {
    assert_eq!(
        Ok(sm(&[("ORG", "NASA"), ("X", "1")])),
        parse_recipient_data(&vec!["ORG:-EFF", "X:-1", "ORG:-NASA"])
    );
}

#[test]
fn parsing_twice_yields_the_same_map() {
    let data = vec!["ORG:-EFF", "TITLE:-PhD", "", "cc:-bl@kf.io,info@ex.org"];
    let once = parse_recipient_data(&data);
    assert_eq!(once, parse_recipient_data(&data));
    let mut twice = data.clone();
    twice.extend(data.iter());
    assert_eq!(once, parse_recipient_data(&twice));
    let repeated = vec!["ORG:-EFF", "ORG:-NASA"];
    let mut doubled = repeated.clone();
    doubled.extend(repeated.iter());
    assert_eq!(parse_recipient_data(&repeated), parse_recipient_data(&doubled));
    let broken = vec!["a:-b", "c:-"];
    let mut broken_twice = broken.clone();
    broken_twice.extend(broken.iter());
    assert_eq!(parse_recipient_data(&broken), parse_recipient_data(&broken_twice));
}

#[test]
fn recipients_come_sorted_whatever_the_order_of_insertion() {
    let one = sections(
        &[("From", "a@b.com"), ("Subject", "Hi")],
        &[("c@d.com", "Carl|ORG:-X"), ("a@d.com", "Anna Lee"), ("b@d.com", "Bob|K:-V")],
    );
    let other = sections(
        &[("Subject", "Hi"), ("From", "a@b.com")],
        &[("b@d.com", "Bob|K:-V"), ("c@d.com", "Carl|ORG:-X"), ("a@d.com", "Anna Lee")],
    );
    assert_eq!(one, other);
    let recipients = parse_recipients(&one).expect("valid recipients");
    assert_eq!(Ok(&recipients), parse_recipients(&other).as_ref());
    let emails: Vec<&str> = recipients.iter().map(|r| r.email.as_str()).collect();
    assert_eq!(vec!["a@d.com", "b@d.com", "c@d.com"], emails);
    assert_eq!(sa(&["Anna", "Lee"]), recipients[0].names);
    assert_eq!(StringMap::new(), recipients[0].data);
    assert_eq!(sm(&[("K", "V")]), recipients[1].data);
    assert_eq!(parse(&one), parse(&other));
}

#[test]
fn a_map_does_not_remember_the_order_of_insertion() {
    assert_eq!(sm(&[("b", "2"), ("a", "1"), ("c", "3")]), sm(&[("c", "3"), ("b", "2"), ("a", "1")]));
    assert_eq!(sm(&[("a", "1"), ("a", "2")]), sm(&[("a", "2")]));
    assert_ne!(sm(&[("a", "1"), ("a", "2")]), sm(&[("a", "2"), ("a", "1")]));
    let map = sm(&[("b", "2"), ("a", "1"), ("b", "3")]);
    assert_eq!(2, map.len());
    assert_eq!(Some(&String::from("3")), map.get("b"));
    assert_eq!(None, map.get("c"));
    assert!(map.contains_key("a"));
    assert!(!map.contains_key(""));
    let keys: Vec<&str> = map.entries().iter().map(|e| e.0.as_str()).collect();
    assert_eq!(vec!["a", "b"], keys);
}

#[test]
fn a_set_holds_each_key_once_and_in_order() {
    let mut set = set_of(&["LN", "FN", "EA"]);
    assert_eq!(3, set.len());
    assert!(!set.insert(String::from("FN")));
    assert!(set.insert(String::from("ORG")));
    assert_eq!(&sa(&["EA", "FN", "LN", "ORG"]), set.items());
    assert!(set.contains("EA"));
    assert!(!set.contains("ea"));
    assert_eq!(set_of(&["ORG", "EA", "LN", "FN", "EA"]), set);
}

#[test]
fn placeholders_give_the_keys() {
    assert_eq!(&set_of(&["FN", "LN", "EA"]), new("Hello %FN% %LN%, see %EA%").keys());
}

#[test]
fn doubled_and_lone_delimiters_give_no_key() {
    assert_eq!(&StringSet::new(), new("100%% off").keys());
    assert_eq!(&StringSet::new(), new("100% off, or 50%").keys());
    assert_eq!(0, new("% % %%").keys().len());
}

#[test]
fn a_closing_delimiter_opens_nothing() {
    assert_eq!(&set_of(&["FN"]), new("%FN%LN%").keys());
    assert_eq!(&set_of(&["a", "c"]), new("%a%b%c%d").keys());
}

#[test]
fn a_missing_key_gives_a_diagnostic() {
    let recipients = vec![Recipient {
        email: String::from("c@d.com"),
        names: sa(&["Carl"]),
        data: sm(&[("ORG", "X")]),
    }];
    assert_eq!(
        Err(sa(&["c@d.com is missing the following key(s): MK"])),
        new("%MK%").check_recipents(&recipients)
    );
}

#[test]
fn recipients_with_every_key_pass() {
    let recipients = vec![
        Recipient { email: String::from("c@d.com"), names: sa(&["Carl"]), data: sm(&[("MK", "X")]) },
        Recipient {
            email: String::from("e@f.com"),
            names: sa(&["Eve"]),
            data: sm(&[("MK", "Y"), ("more", "Z")]),
        },
    ];
    assert_eq!(Ok(()), new("%MK%").check_recipents(&recipients));
    assert_eq!(Ok(()), new("%MK%").check_recipents(&Vec::new()));
}

#[test]
fn every_gap_of_every_recipient_is_reported() {
    let recipients = vec![
        Recipient { email: String::from("a@x.org"), names: sa(&["A"]), data: sm(&[]) },
        Recipient { email: String::from("b@x.org"), names: sa(&["B"]), data: sm(&[("b", "1")]) },
        Recipient {
            email: String::from("c@x.org"),
            names: sa(&["C"]),
            data: sm(&[("a", "1"), ("b", "2"), ("c", "3")]),
        },
        Recipient { email: String::from("d@x.org"), names: sa(&["D"]), data: sm(&[("c", "1")]) },
    ];
    assert_eq!(
        Err(sa(&[
            "a@x.org is missing the following key(s): a, b, c",
            "b@x.org is missing the following key(s): a, c",
            "d@x.org is missing the following key(s): a, b",
        ])),
        new("%c% %_FN% %a% %b% %a% %_TV%").check_recipents(&recipients)
    );
}

#[test]
fn automatic_keys_are_never_asked_for() {
    for key in ["_EA", "_FN", "_LN", "_TN", "_TV"] {
        assert!(is_auto_key(key));
    }
    for key in ["EA", "_ea", "_EA ", "", "_", "_FNN"] {
        assert!(!is_auto_key(key));
    }
    let recipients =
        vec![Recipient { email: String::from("a@x.org"), names: sa(&["A"]), data: sm(&[]) }];
    assert_eq!(Ok(()), new("%_EA% %_FN% %_LN% %_TN% %_TV%").check_recipents(&recipients));
    assert_eq!(
        Err(sa(&["a@x.org is missing the following key(s): _XX"])),
        new("%_EA% %_XX%").check_recipents(&recipients)
    );
}

#[test]
fn from_config_and_template_to_the_verdict() {
    let cfg = sections(&[("From", "a@b.com"), ("Subject", "Hi")], &[("c@d.com", "Carl|ORG:-X")]);
    let config = instantiate(&cfg).expect("a valid configuration");
    assert_eq!(Ok(()), new("Hi %ORG%").check_recipents(config.recipients()));
    assert_eq!(
        Err(sa(&["c@d.com is missing the following key(s): MISSING"])),
        new("Hi %MISSING%").check_recipents(config.recipients())
    );
}

#[test]
fn the_configuration_holds_what_the_sections_say() {
    let cfg = sections(
        &[
            ("from", "  \"Frodo Baggins\" <rts@example.com> "),
            ("Subject", " Hello %FN%! "),
            ("CC", "z@y.org, a@b.com, z@y.org"),
            ("reply-to", "r@s.tu"),
        ],
        &[("c@d.com", " Carl  von \t Linde | ORG:-X ||")],
    );
    let config = instantiate(&cfg).expect("a valid configuration");
    assert_eq!("  \"Frodo Baggins\" <rts@example.com> ", config.from().as_str());
    assert_eq!(" Hello %FN%! ", config.subject().as_str());
    assert_eq!(&sa(&["a@b.com", "z@y.org"]), config.cc());
    assert_eq!(&sa(&["r@s.tu"]), config.replyto());
    assert_eq!(
        &vec![Recipient {
            email: String::from("c@d.com"),
            names: sa(&["Carl", "von", "Linde"]),
            data: sm(&[("ORG", "X")]),
        }],
        config.recipients()
    );
    assert_eq!(
        "from:   \"Frodo Baggins\" <rts@example.com> , subject:  Hello %FN%! , cc: a@b.com, z@y.org, replyto: r@s.tu, recipients: {email: c@d.com, names: Carl, von, Linde, data: ORG => X}",
        config.to_string()
    );
}

#[test]
fn a_configuration_without_copies_prints_none() {
    let cfg = sections(
        &[("From", "a@b.com"), ("subject", "Hi")],
        &[("c@d.com", "Carl"), ("a@d.com", "Anna|k:-v|K:-V")],
    );
    let config = parse(&cfg).expect("a valid configuration");
    assert_eq!(
        "from: a@b.com, subject: Hi, recipients: {email: a@d.com, names: Anna, data: K => V, k => v}, {email: c@d.com, names: Carl, data: }",
        config.to_string()
    );
}

#[test]
fn the_lines_of_a_recipient_are_sorted_as_lines() {
    let r = Recipient {
        email: String::from("a@b.c"),
        names: Vec::new(),
        data: sm(&[("a", "1"), ("a\tb", "2"), ("B", "3")]),
    };
    assert_eq!("email: a@b.c, names: , data: B => 3, a\tb => 2, a => 1", r.to_string());
}

#[test]
fn every_error_has_its_input_and_its_text() {
    let none = Sections { general: None, recipients: None };
    assert_eq!(Err(ConfigError::MissingSection(String::from("general"))), check(&none));
    let no_recipients =
        Sections { general: Some(map_of(&[("from", "x"), ("subject", "y")])), recipients: None };
    assert_eq!(
        Err(ConfigError::MissingSection(String::from("recipients"))),
        check(&no_recipients)
    );
    assert_eq!(Err(ConfigError::MissingFrom), check(&sections(&[("Subject", "y")], &[])));
    assert_eq!(Err(ConfigError::MissingSubject), check(&sections(&[("From", "x")], &[])));
    assert_eq!(
        Err(ConfigError::NoRecipients),
        check(&sections(&[("From", "x"), ("Subject", "y")], &[]))
    );
    assert_eq!(
        Ok(1),
        check(&sections(&[("from", "x"), ("subject", "y")], &[("anything", "")]))
    );
    assert_eq!(
        Err(ConfigError::InvalidFrom(String::from("x"))),
        parse_general(&sections(&[("From", "x")], &[]))
    );
    assert_eq!(
        Err(ConfigError::NoEmails(String::from("Reply-To"))),
        parse_general(&sections(&[("reply-to", " , ")], &[]))
    );
    assert_eq!(
        Err(ConfigError::InvalidEmails {
            header: String::from("Reply-To"),
            offending: sa(&["b", "c@d"])
        }),
        parse_general(&sections(&[("reply-to", "c@d, a@b.c, b")], &[]))
    );
    assert_eq!(
        Err(ConfigError::InvalidEmails { header: String::from("CC"), offending: sa(&["x"]) }),
        parse_general(&sections(&[("CC", "x")], &[]))
    );
    assert_eq!(
        Err(ConfigError::UnrecognizedDatum(String::from("attachments"))),
        parse_general(&sections(&[("attachments", "a.txt")], &[]))
    );
    assert_eq!(
        Err(ConfigError::UnrecognizedDatum(String::from("FROM"))),
        parse_general(&sections(&[("FROM", "a@b.c")], &[]))
    );
    assert_eq!(
        Err(ConfigError::UnrecognizedDatum(String::from("Reply-to"))),
        parse_general(&sections(&[("Reply-to", "a@b.c")], &[]))
    );
    assert_eq!(
        Err(ConfigError::InvalidRecipientEmail(String::from("nobody"))),
        parse_recipients(&sections(&[], &[("nobody", "No Body")]))
    );
    assert_eq!(
        Err(ConfigError::EmptyRecipientData(String::from("a@b.c"))),
        parse_recipients(&sections(&[], &[("a@b.c", " | |")]))
    );
    assert_eq!(
        Err(ConfigError::RecipientDataError {
            email: String::from("a@b.c"),
            inner: DatumError::InvalidRecipientDatum(String::from("ORG")),
        }),
        parse_recipients(&sections(&[], &[("a@b.c", "A|ORG")]))
    );

    let texts = [
        (ConfigError::MissingSection(String::from("s")), "No *s* section in config file"),
        (ConfigError::MissingFrom, "No *From* header in the general section"),
        (ConfigError::MissingSubject, "No *Subject* in the general section"),
        (ConfigError::NoRecipients, "No email recipients found in config file"),
        (ConfigError::InvalidFrom(String::from("v")), "invalid *From* email: v"),
        (ConfigError::NoEmails(String::from("h")), "no emails for *h* header"),
        (
            ConfigError::InvalidEmails { header: String::from("h"), offending: sa(&["a", "b"]) },
            "invalid *h* email(s): a, b",
        ),
        (ConfigError::UnrecognizedDatum(String::from("k")), "invalid configuration datum: *k*"),
        (ConfigError::InvalidRecipientEmail(String::from("k")), "invalid email: k"),
        (ConfigError::EmptyRecipientData(String::from("k")), "invalid data for email: k"),
        (
            ConfigError::RecipientDataError {
                email: String::from("e"),
                inner: DatumError::InvalidRecipientDatum(String::from("d")),
            },
            "invalid recipient data for e (invalid recipient data (d))",
        ),
        (
            ConfigError::RecipientDataError {
                email: String::from("e"),
                inner: DatumError::EmptyKey(String::from("v")),
            },
            "invalid recipient data for e (no key for datum (v))",
        ),
        (
            ConfigError::RecipientDataError {
                email: String::from("e"),
                inner: DatumError::EmptyValue(String::from("k")),
            },
            "invalid recipient data for e (empty value for key (k))",
        ),
    ];
    for (error, text) in texts {
        assert_eq!(text, error.message());
    }
}

#[test]
fn the_general_section_fails_before_the_recipients() {
    let cfg = sections(&[("From", "x"), ("Subject", "y")], &[("nobody", "")]);
    assert_eq!(Err(ConfigError::InvalidFrom(String::from("x"))), parse(&cfg));
    assert_eq!(Err(ConfigError::InvalidFrom(String::from("x"))), instantiate(&cfg));
    let cfg = sections(&[("Subject", "y")], &[("nobody", "")]);
    assert_eq!(Err(ConfigError::MissingFrom), instantiate(&cfg));
    let cfg = sections(&[("From", "a@b.c"), ("Subject", "y")], &[("z", "Z"), ("a@b.c", "")]);
    assert_eq!(Err(ConfigError::EmptyRecipientData(String::from("a@b.c"))), instantiate(&cfg));
}

#[test]
fn the_shape_of_an_address_decides() {
    for valid in [
        "a@b.c",
        " a@b.c\t",
        "a@b@c.d.e",
        "<a@b.c>",
        "x<a@b.c>",
        "x <a@b.c>",
        "\"X Y\" <a@b.c>",
        "x\t<<@@a.>>",
    ] {
        assert!(check_email(valid), "{:?}", valid);
    }
    for invalid in
        ["", " ", "a", "a@b", "a.b", "@b.c", "a@.c", "a@b.", "a b@c.d", "x <a@b.c", "x <a@b.c> y"]
    {
        assert!(!check_email(invalid), "{:?}", invalid);
    }
}
