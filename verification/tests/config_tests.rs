use ini::Ini;
use rmt::config::{
    check, check_email, check_emails, gen_config, gen_template, instantiate, parse, parse_general,
    parse_recipient_data, parse_recipients, sa, sm, Recipient, Sections,
};
use rmt::error::{ConfigError, DatumError};
use rmt::table::StringMap;

fn section(ini: &Ini, name: &str) -> Option<StringMap> {
    ini.section(Some(name)).map(|props| {
        let mut map = StringMap::new();
        for (key, value) in props.iter() {
            map.insert(key.to_string(), value.to_string());
        }
        map
    })
}

fn prep_config(content: &str) -> Result<Sections, String> {
    let ini = Ini::load_from_str(content).map_err(|e| e.to_string())?;
    Ok(Sections { general: section(&ini, "general"), recipients: section(&ini, "recipients") })
}

fn text<T>(r: Result<T, ConfigError>) -> Result<T, String> {
    r.map_err(|e| e.message())
}

fn datum_text<T>(r: Result<T, DatumError>) -> Result<T, String> {
    r.map_err(|e| e.message())
}

#[test]
fn check_with_empty_file() {
    let cfg = prep_config("").expect("Failed to set up config");
    assert_eq!(Err(String::from("No *general* section in config file")), text(check(&cfg)));
}

#[test]
fn check_with_no_recipients_section() {
    let file = r#"
[general]
From=abc@def.com
Subject=hello world!
# this is a comment"#;
    let cfg = prep_config(file).expect("Failed to set up config");
    assert_eq!(Err(String::from("No *recipients* section in config file")), text(check(&cfg)));
}

#[test]
fn check_with_no_recipients() {
    let file = r#"
[general]
From=abc@def.com
Subject=hello world!
# this is a comment
[recipients]"#;
    let cfg = prep_config(file).expect("Failed to set up config");
    assert_eq!(Err(String::from("No email recipients found in config file")), text(check(&cfg)));
}

#[test]
fn check_with_no_from_in_empty_general() {
    let file = r#"
[general]
# this is a comment
[recipients]"#;
    let cfg = prep_config(file).expect("Failed to set up config");
    assert_eq!(Err(String::from("No *From* header in the general section")), text(check(&cfg)));
}

#[test]
fn check_with_no_from_in_non_empty_general() {
    let file = r#"
[general]
P1=a
P2=b
# this is a comment
[recipients]"#;
    let cfg = prep_config(file).expect("Failed to set up config");
    assert_eq!(Err(String::from("No *From* header in the general section")), text(check(&cfg)));
}

#[test]
fn check_with_no_subject() {
    let file = r#"
[general]
From=a
# this is a comment
[recipients]"#;
    let cfg = prep_config(file).expect("Failed to set up config");
    assert_eq!(Err(String::from("No *Subject* in the general section")), text(check(&cfg)));
}

#[test]
fn check_with_happy_path() {
    let file = r#"
[general]
From=abc@def.com
Subject=hello world!
# this is a comment
[recipients]
a@b.com=A B
c@d.com=C D"#;
    let cfg = prep_config(file).expect("Failed to set up config");
    assert_eq!(Ok(2), text(check(&cfg)));
}

#[test]
fn parse_recipients_with_happy_path() {
    let file = r#"
[general]
From=abc@def.com
# this is a comment
cc=weirdo@nsb.gov, cc@example.com
[recipients]
# The 'cc' setting below *redefines* the global 'cc' value above
jd@example.com=John Doe Jr.|ORG:-EFF|TITLE:-PhD|cc:-bl@kf.io,info@ex.org
mm@gmail.com=Mickey Mouse|ORG:-Disney   # trailing comment!!
# The 'cc' setting below *adds* to the global 'cc' value above
daisy@example.com=Daisy Lila|ORG:-NASA|TITLE:-Dr.|cc:-+inc@gg.org"#;
    let cfg = prep_config(file).expect("Failed to set up config");
    let mut expected = Vec::new();
    expected.push(Recipient {
        email: String::from("daisy@example.com"),
        names: sa(&["Daisy", "Lila"]),
        data: sm(&[("ORG", "NASA"), ("TITLE", "Dr."), ("cc", "+inc@gg.org")]),
    });
    expected.push(Recipient {
        email: String::from("jd@example.com"),
        names: sa(&["John", "Doe", "Jr."]),
        data: sm(&[("ORG", "EFF"), ("TITLE", "PhD"), ("cc", "bl@kf.io,info@ex.org")]),
    });
    expected.push(Recipient {
        email: String::from("mm@gmail.com"),
        names: sa(&["Mickey", "Mouse"]),
        data: sm(&[("ORG", "Disney")]),
    });
    assert_eq!(expected, parse_recipients(&cfg).expect("This should not fail"));
}

#[test]
fn recipients_to_string() {
    let r = Recipient {
        email: String::from("jd@example.com"),
        names: sa(&["John", "Doe", "Jr."]),
        data: sm(&[("ORG", "EFF"), ("TITLE", "PhD"), ("cc", "bl@kf.io,info@ex.org")]),
    };
    assert_eq!("email: jd@example.com, names: John, Doe, Jr., data: ORG => EFF, TITLE => PhD, cc => bl@kf.io,info@ex.org", r.to_string());
}

#[test]
fn check_email_happy_case() {
    assert_eq!(true, check_email("abx@yajo.co.uk"));
}

#[test]
fn check_email_with_plus_char_happy_case() {
    assert_eq!(true, check_email("abx+alias@yajo.co.uk"));
}

#[test]
fn check_email_with_leading_trailing_whitespace_happy_case() {
    assert_eq!(true, check_email("      abx+alias@yajo.co.uk      "));
}

#[test]
fn check_email_with_failure() {
    assert_eq!(false, check_email("@yajo.co.uk"));
}

#[test]
fn check_email_with_whitespace_failure() {
    assert_eq!(false, check_email("    @yajo.co.uk"));
    assert_eq!(false, check_email("hello@   .uk  "));
    assert_eq!(false, check_email("hello@"));
    assert_eq!(false, check_email("@"));
    assert_eq!(false, check_email("hello@      "));
}

#[test]
fn check_email_with_long_form_and_quotes() {
    assert_eq!(true, check_email(r#""Frodo Baggins" <rts@example.com>"#));
}

#[test]
fn check_email_with_long_form_and_no_quotes() {
    assert_eq!(true, check_email(r#"Frodo Baggins <rts@example.com>"#));
}

#[test]
fn parse_recipients_with_invalid_email() {
    let file = r#"
[general]
From=abc@def.com
# this is a comment
cc=weirdo@nsb.gov, cc@example.com
[recipients]
# The 'cc' setting below *redefines* the global 'cc' value above
@example.com=John Doe Jr.|ORG:-EFF|TITLE:-PhD|cc:-bl@kf.io,info@ex.org"#;
    let cfg = prep_config(file).expect("Failed to set up config");
    let expected = Err(String::from("invalid email: @example.com"));
    assert_eq!(expected, text(parse_recipients(&cfg)));
}

#[test]
fn parse_recipients_with_invalid_data() {
    let file = r#"
[general]
From=abc@def.com
# this is a comment
cc=weirdo@nsb.gov, cc@example.com
[recipients]
# The 'cc' setting below *redefines* the global 'cc' value above
a@example.com="#;
    let cfg = prep_config(file).expect("Failed to set up config");
    let expected = Err(String::from("invalid data for email: a@example.com"));
    assert_eq!(expected, text(parse_recipients(&cfg)));
}

#[test]
fn parse_recipients_with_invalid_non_name_data_no_value() {
    let file = r#"
[general]
From=abc@def.com
# this is a comment
cc=weirdo@nsb.gov, cc@example.com
[recipients]
# The 'cc' setting below *redefines* the global 'cc' value above
a@example.com=A B C|ORG:-"#;
    let cfg = prep_config(file).expect("Failed to set up config");
    let expected = Err(String::from(
        "invalid recipient data for a@example.com (empty value for key (ORG))",
    ));
    assert_eq!(expected, text(parse_recipients(&cfg)));
}

#[test]
fn parse_recipients_with_invalid_non_name_data_no_key() {
    let file = r#"
[general]
From=abc@def.com
# this is a comment
cc=weirdo@nsb.gov, cc@example.com
[recipients]
# The 'cc' setting below *redefines* the global 'cc' value above
a@example.com=A B C|:-Disney"#;
    let cfg = prep_config(file).expect("Failed to set up config");
    let expected = Err(String::from(
        "invalid recipient data for a@example.com (no key for datum (Disney))",
    ));
    assert_eq!(expected, text(parse_recipients(&cfg)));
}

#[test]
fn parse_recipient_data_happy_case() {
    let expected = sm(&[("ORG", "EFF"), ("TITLE", "PhD"), ("cc", "bl@kf.io,info@ex.org")]);
    let mut args: Vec<&str> =
        "jd@example.com=John Doe Jr.|ORG:-EFF|   TITLE:-PhD|cc:-       bl@kf.io,info@ex.org"
            .split("|")
            .collect();

    args.remove(0);
    assert_eq!(Ok(expected), datum_text(parse_recipient_data(&args)));
}

#[test]
fn parse_recipient_data_happy_case_with_empty_key_and_value() {
    let expected = sm(&[("ORG", "EFF"), ("cc", "bl@kf.io,info@ex.org")]);
    let mut args: Vec<&str> =
        "jd@example.com=John Doe Jr.|ORG:-EFF|:-|cc:-       bl@kf.io,info@ex.org"
            .split("|")
            .collect();

    args.remove(0);
    assert_eq!(Ok(expected), datum_text(parse_recipient_data(&args)));
}

#[test]
fn parse_recipient_data_failure_case_with_empty_key() {
    let mut args: Vec<&str> =
        "jd@example.com=John Doe Jr.|:-EFF|TITLE:-PhD|cc:-bl@kf.io,info@ex.org"
            .split("|")
            .collect();

    args.remove(0);
    assert_eq!(
        Err(String::from("no key for datum (EFF)")),
        datum_text(parse_recipient_data(&args))
    );
}

#[test]
fn parse_recipient_data_failure_case_with_empty_value() {
    let mut args: Vec<&str> =
        "jd@example.com=John Doe Jr.|ORG:-   |TITLE:-PhD|cc:-bl@kf.io,info@ex.org"
            .split("|")
            .collect();

    args.remove(0);
    assert_eq!(
        Err(String::from("empty value for key (ORG)")),
        datum_text(parse_recipient_data(&args))
    );
}

#[test]
fn parse_recipient_data_happy_case_with_empty_rdata() {
    let expected = sm(&[("TITLE", "PhD")]);
    let mut args: Vec<&str> = "jd@example.com=John Doe Jr.||TITLE:-PhD|".split("|").collect();

    args.remove(0);
    assert_eq!(Ok(expected), datum_text(parse_recipient_data(&args)));
}

#[test]
fn parse_recipient_data_failure_case_with_invalid_format() {
    let mut args: Vec<&str> = "jd@example.com=John Doe Jr.|R:-E:-K:-T|cc:-bl@kf.io,info@ex.org"
        .split("|")
        .collect();

    args.remove(0);
    assert_eq!(
        Err(String::from("invalid recipient data (R:-E:-K:-T)")),
        datum_text(parse_recipient_data(&args))
    );
}

#[test]
fn parse_general_with_invalid_from_email() {
    let file = r#"
[general]
From=abc@defcom
# this is a comment
cc=weirdo@nsb.gov, cc@example.com
[recipients]
# The 'cc' setting below *redefines* the global 'cc' value above
@example.com=John Doe Jr.|ORG:-EFF|TITLE:-PhD|cc:-bl@kf.io,info@ex.org"#;
    let cfg = prep_config(file).expect("Failed to set up config");
    let expected = Err(String::from("invalid *From* email: abc@defcom"));
    assert_eq!(expected, text(parse_general(&cfg)));
}

#[test]
fn parse_general_with_invalid_reply_to_email() {
    let file = r#"
[general]
From=abc@def.com
Reply-To=no@one
# this is a comment
cc=weirdo@nsb.gov, cc@example.com
[recipients]
# The 'cc' setting below *redefines* the global 'cc' value above
@example.com=John Doe Jr.|ORG:-EFF|TITLE:-PhD|cc:-bl@kf.io,info@ex.org"#;
    let cfg = prep_config(file).expect("Failed to set up config");
    let expected = Err(String::from("invalid *Reply-To* email(s): no@one"));
    assert_eq!(expected, text(parse_general(&cfg)));
}

#[test]
fn parse_general_with_invalid_cc_email() {
    let file = r#"
[general]
From=abc@def.com
Reply-To=no@one.org
# this is a comment
cc=dd@examplecom, weirdo@nsb.gov, oh!no!
[recipients]
# The 'cc' setting below *redefines* the global 'cc' value above
@example.com=John Doe Jr.|ORG:-EFF|TITLE:-PhD|cc:-bl@kf.io,info@ex.org"#;
    let cfg = prep_config(file).expect("Failed to set up config");
    let expected = Err(String::from("invalid *cc* email(s): dd@examplecom, oh!no!"));
    assert_eq!(expected, text(parse_general(&cfg)));
}

#[test]
fn parse_general_with_empty_cc_email() {
    let file = r#"
[general]
From=abc@def.com
Reply-To=no@one.org
# this is a comment
Cc=
[recipients]
# The 'cc' setting below *redefines* the global 'cc' value above
@example.com=John Doe Jr.|ORG:-EFF|TITLE:-PhD|cc:-bl@kf.io,info@ex.org"#;
    let cfg = prep_config(file).expect("Failed to set up config");
    let expected = Err(String::from("no emails for *Cc* header"));
    assert_eq!(expected, text(parse_general(&cfg)));
}

#[test]
fn parse_general_with_invalid_config_datum() {
    let file = r#"
[general]
From=abc@def.com
Reply-To=no@one.org
# this is a comment
blah=invalid
[recipients]
# The 'cc' setting below *redefines* the global 'cc' value above
@example.com=John Doe Jr.|ORG:-EFF|TITLE:-PhD|cc:-bl@kf.io,info@ex.org"#;
    let cfg = prep_config(file).expect("Failed to set up config");
    let expected = Err(String::from("invalid configuration datum: *blah*"));
    assert_eq!(expected, text(parse_general(&cfg)));
}

#[test]
fn parse_happy_case() {
    let file = r#"
#
# anything that follows a hash is a comment
# email address is to the left of the '=' sign, first word after is
# the first name, the rest is the surname
[general]
From="Frodo Baggins" <rts@example.com>
cc=weirdo@nsb.gov, cc@example.com
Reply-To="John Doe" <jd@mail.com>
subject=Hello %FN%!
#attachments=/home/user/atmt1.ics, ../Documents/doc2.txt
[recipients]
# The 'cc' setting below *redefines* the global 'cc' value above
jd@example.com=John Doe Jr.|ORG:-EFF|TITLE:-PhD|cc:-bl@kf.io,info@ex.org
mm@gmail.com=Mickey Mouse|ORG:-Disney   # trailing comment!!
# The 'cc' setting below *adds* to the global 'cc' value above
daisy@example.com=Daisy Lila|ORG:-NASA|TITLE:-Dr.|cc:-+inc@gg.org"#;
    let cfg = prep_config(file).expect("Failed to set up config");
    let expected = "from: Frodo Baggins <rts@example.com>, subject: Hello %FN%!, cc: cc@example.com, weirdo@nsb.gov, replyto: John Doe <jd@mail.com>, recipients: {email: daisy@example.com, names: Daisy, Lila, data: ORG => NASA, TITLE => Dr., cc => +inc@gg.org}, {email: jd@example.com, names: John, Doe, Jr., data: ORG => EFF, TITLE => PhD, cc => bl@kf.io,info@ex.org}, {email: mm@gmail.com, names: Mickey, Mouse, data: ORG => Disney}";
    let actual = parse(&cfg).expect("Failed to parse config");

    assert_eq!(expected, actual.to_string());
}

#[test]
fn sample_config_passes_its_own_checks() {
    let cfg = prep_config(&gen_config("rmt", "0.1.2")).expect("Failed to set up config");
    assert_eq!(Ok(3), text(check(&cfg)));
    let config = instantiate(&cfg).expect("Failed to parse config");
    assert_eq!("Frodo Baggins <rts@example.com>", config.from().as_str());
    assert_eq!("Hello %FN%!", config.subject().as_str());
    assert_eq!(0, config.cc().len());
    assert_eq!(0, config.replyto().len());
    assert_eq!(3, config.recipients().len());
}

#[test]
fn sample_config_is_this_text() {
    let expected = r#"# rmt version 0.1.2
#
# anything that follows a hash is a comment
# email address is to the left of the '=' sign, first word after is
# the first name, the rest is the surname
[general]
From="Frodo Baggins" <rts@example.com>
#cc=weirdo@nsb.gov, cc@example.com
#Reply-To="John Doe" <jd@mail.com>
subject=Hello %FN%!
#attachments=/home/user/atmt1.ics, ../Documents/doc2.txt
[recipients]
# The 'cc' setting below *redefines* the global 'cc' value above
jd@example.com=John Doe Jr.|ORG:-EFF|TITLE:-PhD|cc:-bl@kf.io,info@ex.org
mm@gmail.com=Mickey Mouse|ORG:-Disney   # trailing comment!!
# The 'cc' setting below *adds* to the global 'cc' value above
daisy@example.com=Daisy Lila|ORG:-NASA|TITLE:-Dr.|cc:-+inc@gg.org"#;
    assert_eq!(expected, gen_config("rmt", "0.1.2"));
}

#[test]
fn sample_template_is_this_text() {
    let expected = r#"FN / LN / EA = first name / last name / email address

Hello %FN% // %LN%, how are things going at %ORG%?
this is your email: %EA% :)


Sent with mailer version 1.0, see https://301.mx/mailer for details"#;
    assert_eq!(expected, gen_template("mailer", "1.0"));
    let template = rmt::template::new(&gen_template("mailer", "1.0"));
    assert_eq!(&sa(&["EA", "FN", "LN", "ORG"]), template.keys().items());
}

#[test]
fn check_emails_lists_every_invalid_entry() {
    assert_eq!(Err(String::from("no emails for *Cc* header")), text(check_emails("Cc", "")));
    assert_eq!(Err(String::from("no emails for *Cc* header")), text(check_emails("Cc", " , ,")));
    match check_emails("Cc", "a@b.com, bad") {
        Err(ConfigError::InvalidEmails { header, offending }) => {
            assert_eq!("Cc", header);
            assert_eq!(sa(&["bad"]), offending);
        },
        other => panic!("unexpected: {:?}", other),
    }
    assert_eq!(
        Err(String::from("invalid *Cc* email(s): bad, worse")),
        text(check_emails("Cc", "worse, a@b.com, bad"))
    );
    assert_eq!(
        Ok(sa(&["a@b.com", "a@b.com", "z@y.org"])),
        text(check_emails("Cc", " z@y.org,a@b.com ,, a@b.com"))
    );
}
