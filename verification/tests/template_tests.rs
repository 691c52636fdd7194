use rmt::config::{sa, sm, Recipient};
use rmt::table::StringSet;
use rmt::template::new;

/// Constructs a set of `String` from an array of string slices.
fn ss(a: &[&str]) -> StringSet {
    let mut set = StringSet::new();
    for w in a {
        set.insert(w.to_string());
    }
    set
}

#[test]
fn new_with_empty_string() {
    let actual = new("");
    assert_eq!((&String::from(""), &StringSet::new()), (actual.text(), actual.keys()));
}

#[test]
fn new_with_no_keys() {
    let template = "Hello Sir! May I get you interested in..?";
    let actual = new(template);
    assert_eq!((&String::from(template), &StringSet::new()), (actual.text(), actual.keys()));
}

#[test]
fn new_happy_case() {
    let template = r#"FN / LN / EA = first name / last name / email address

Hello %FN% // %LN%, how are things going at %ORG%?
this is your email: %EA% :)
have a nice day %FN% %LN%!!


Sent with rmt version 0.1.2, see https://301.mx/rmt for details"#;
    let actual = new(template);
    assert_eq!(
        (&String::from(template), &ss(&["EA", "FN", "LN", "ORG"])),
        (actual.text(), actual.keys())
    );
}

#[test]
fn new_with_invalid_keys() {
    let template = "Hello Sir %FN%! How about %FN or EA% / %%HM%??";
    let actual = new(template);
    assert_eq!((&String::from(template), &ss(&["FN", "HM"])), (actual.text(), actual.keys()));
}

#[test]
fn new_with_empty_keys() {
    let template = "Hello Sir %FN%! How about %FN / %% / % / %HM%%??";
    let actual = new(template);
    assert_eq!((&String::from(template), &ss(&["FN", "HM"])), (actual.text(), actual.keys()));
}

#[test]
fn new_with_keys_containing_digits() {
    let template = "Hello Sir %FN%! How about %FN or EA% / %%H3%??";
    let actual = new(template);
    assert_eq!((&String::from(template), &ss(&["FN", "H3"])), (actual.text(), actual.keys()));
}

#[test]
fn new_with_keys_containing_non_alphanumerics() {
    let template = "Hello Sir %FN%! How about %--% or %%% / %H3%%??";
    let actual = new(template);
    assert_eq!((&String::from(template), &ss(&["FN", "H3"])), (actual.text(), actual.keys()));
}

#[test]
fn check_recipents_with_1_missing_key() {
    let mut recipients = Vec::new();
    recipients.push(Recipient {
        email: String::from("daisy@example.com"),
        names: sa(&["Daisy", "Lila"]),
        data: sm(&[("ORG", "NASA"), ("TITLE", "Dr."), ("cc", "+inc@gg.org")]),
    });
    recipients.push(Recipient {
        email: String::from("jd@example.com"),
        names: sa(&["John", "Doe", "Jr."]),
        data: sm(&[("ORG", "EFF"), ("TITLE", "PhD"), ("cc", "bl@kf.io,info@ex.org")]),
    });
    recipients.push(Recipient {
        email: String::from("mm@gmail.com"),
        names: sa(&["Mickey", "Mouse"]),
        data: sm(&[("ORG", "Disney")]),
    });
    let template = new("Missing key: %MK%");
    let expected: Vec<String> = sa(&[
        "daisy@example.com is missing the following key(s): MK",
        "jd@example.com is missing the following key(s): MK",
        "mm@gmail.com is missing the following key(s): MK",
    ]);
    assert_eq!(Err(expected), template.check_recipents(&recipients));
}

#[test]
fn check_recipents_with_multiple_missing_key() {
    let mut recipients = Vec::new();
    recipients.push(Recipient {
        email: String::from("daisy@example.com"),
        names: sa(&["Daisy", "Lila"]),
        data: sm(&[("MK", "NASA"), ("TITLE", "Dr."), ("cc", "+inc@gg.org")]),
    });
    recipients.push(Recipient {
        email: String::from("jd@example.com"),
        names: sa(&["John", "Doe", "Jr."]),
        data: sm(&[("ORG", "EFF"), ("TITLE", "PhD"), ("M2", "bl@kf.io,info@ex.org")]),
    });
    recipients.push(Recipient {
        email: String::from("mm@gmail.com"),
        names: sa(&["Mickey", "Mouse"]),
        data: sm(&[("ORG", "Disney")]),
    });
    let template = new("Missing key: %MK% %M2% %m3%");
    let expected: Vec<String> = sa(&[
        "daisy@example.com is missing the following key(s): M2, m3",
        "jd@example.com is missing the following key(s): MK, m3",
        "mm@gmail.com is missing the following key(s): M2, MK, m3",
    ]);
    assert_eq!(Err(expected), template.check_recipents(&recipients));
}

#[test]
fn check_recipents_happy_case() {
    let mut recipients = Vec::new();
    recipients.push(Recipient {
        email: String::from("daisy@example.com"),
        names: sa(&["Daisy", "Lila"]),
        data: sm(&[("ORG", "NASA"), ("TITLE", "Dr."), ("cc", "+inc@gg.org")]),
    });
    recipients.push(Recipient {
        email: String::from("jd@example.com"),
        names: sa(&["John", "Doe", "Jr."]),
        data: sm(&[("ORG", "EFF"), ("TITLE", "PhD")]),
    });
    recipients.push(Recipient {
        email: String::from("mm@gmail.com"),
        names: sa(&["Mickey", "Mouse"]),
        data: sm(&[("ORG", "Disney")]),
    });
    let template = new("only key: %ORG%");
    assert_eq!(Ok(()), template.check_recipents(&recipients));
}

#[test]
fn check_recipents_happy_case_no_keys_in_template() {
    let mut recipients = Vec::new();
    recipients.push(Recipient {
        email: String::from("daisy@example.com"),
        names: sa(&["Daisy", "Lila"]),
        data: sm(&[("ORG", "NASA"), ("TITLE", "Dr."), ("cc", "+inc@gg.org")]),
    });
    recipients.push(Recipient {
        email: String::from("jd@example.com"),
        names: sa(&["John", "Doe", "Jr."]),
        data: sm(&[("ORG", "EFF"), ("TITLE", "PhD")]),
    });
    recipients.push(Recipient {
        email: String::from("mm@gmail.com"),
        names: sa(&["Mickey", "Mouse"]),
        data: sm(&[("ORG", "Disney")]),
    });
    let template = new("no keys in template");
    assert_eq!(Ok(()), template.check_recipents(&recipients));
}

#[test]
fn check_recipents_happy_case_with_auto_keys_only() {
    let mut recipients = Vec::new();
    recipients.push(Recipient {
        email: String::from("daisy@example.com"),
        names: sa(&["Daisy", "Lila"]),
        data: sm(&[]),
    });
    recipients.push(Recipient {
        email: String::from("jd@example.com"),
        names: sa(&["John", "Doe", "Jr."]),
        data: sm(&[]),
    });
    recipients.push(Recipient {
        email: String::from("mm@gmail.com"),
        names: sa(&["Mickey", "Mouse"]),
        data: sm(&[]),
    });
    let template = new("auto keys only: %_FN%, %_LN%, %_EA% !!");
    assert_eq!(Ok(()), template.check_recipents(&recipients));
}

#[test]
fn check_recipents_happy_case_with_mixed_keys() {
    let mut recipients = Vec::new();
    recipients.push(Recipient {
        email: String::from("daisy@example.com"),
        names: sa(&["Daisy", "Lila"]),
        data: sm(&[("_USER_DEFINED", "dec")]),
    });
    recipients.push(Recipient {
        email: String::from("jd@example.com"),
        names: sa(&["John", "Doe", "Jr."]),
        data: sm(&[("_USER_DEFINED", "jec")]),
    });
    recipients.push(Recipient {
        email: String::from("mm@gmail.com"),
        names: sa(&["Mickey", "Mouse"]),
        data: sm(&[("_USER_DEFINED", "mgc")]),
    });
    let template = new("auto keys only: %_FN%, %_USER_DEFINED%!!");
    assert_eq!(Ok(()), template.check_recipents(&recipients));
}

#[test]
fn check_recipents_failure_with_mixed_keys() {
    let mut recipients = Vec::new();
    recipients.push(Recipient {
        email: String::from("daisy@example.com"),
        names: sa(&["Daisy", "Lila"]),
        data: sm(&[("USER_DEFINED", "dec")]),
    });
    recipients.push(Recipient {
        email: String::from("jd@example.com"),
        names: sa(&["John", "Doe", "Jr."]),
        data: sm(&[("_USER_DEFINED", "jec")]),
    });
    recipients.push(Recipient {
        email: String::from("mm@gmail.com"),
        names: sa(&["Mickey", "Mouse"]),
        data: sm(&[("_USER_DEFINED", "mgc")]),
    });
    let template = new("auto keys only: %_FN%, %_USER_DEFINED%!!");
    let expected: Vec<String> =
        sa(&["daisy@example.com is missing the following key(s): _USER_DEFINED"]);
    assert_eq!(Err(expected), template.check_recipents(&recipients));
}
