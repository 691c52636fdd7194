//! What can be wrong with a configuration, and how it is told.

use vstd::prelude::*;
use vstd::string::StringExecFns;
use crate::text::{join, join_strings, views};

verus! {

/// Why one datum of a recipient, such as `ORG:-EFF`, was turned down.
#[derive(Debug, PartialEq, Eq)]
pub enum DatumError {
    /// The datum is not of the form key, `:-`, value. Holds the datum as it
    /// was given.
    InvalidRecipientDatum(String),
    /// There is a value but no key. Holds the value.
    EmptyKey(String),
    /// There is a key but no value. Holds the key.
    EmptyValue(String),
}

/// A `DatumError` with its strings as character sequences.
pub enum DatumErrorView {
    InvalidRecipientDatum(Seq<char>),
    EmptyKey(Seq<char>),
    EmptyValue(Seq<char>),
}

impl DatumErrorView {
    /// The text that tells of the error.
    pub open spec fn message(self) -> Seq<char> {
        match self {
            DatumErrorView::InvalidRecipientDatum(d) => "invalid recipient data ("@ + d + ")"@,
            DatumErrorView::EmptyKey(v) => "no key for datum ("@ + v + ")"@,
            DatumErrorView::EmptyValue(k) => "empty value for key ("@ + k + ")"@,
        }
    }
}

impl View for DatumError {
    type V = DatumErrorView;

    open spec fn view(&self) -> DatumErrorView {
        match self {
            DatumError::InvalidRecipientDatum(d) => DatumErrorView::InvalidRecipientDatum(d@),
            DatumError::EmptyKey(v) => DatumErrorView::EmptyKey(v@),
            DatumError::EmptyValue(k) => DatumErrorView::EmptyValue(k@),
        }
    }
}

impl DatumError {
    /// The text that tells of the error.
    pub fn message(&self) -> (r: String)
        ensures
            r@ == self@.message(),
    {
        match self {
            DatumError::InvalidRecipientDatum(d) => String::from_str(
                "invalid recipient data (",
            ).concat(d.as_str()).concat(")"),
            DatumError::EmptyKey(v) => String::from_str("no key for datum (").concat(
                v.as_str(),
            ).concat(")"),
            DatumError::EmptyValue(k) => String::from_str("empty value for key (").concat(
                k.as_str(),
            ).concat(")"),
        }
    }
}

/// Why a configuration was turned down.
#[derive(Debug, PartialEq, Eq)]
pub enum ConfigError {
    /// A section is missing. Holds its name.
    MissingSection(String),
    /// The general section names no sender.
    MissingFrom,
    /// The general section names no subject.
    MissingSubject,
    /// The recipients section is empty.
    NoRecipients,
    /// The sender is no valid email address. Holds what was given.
    InvalidFrom(String),
    /// A list of addresses holds none. Holds the header's name.
    NoEmails(String),
    /// A list of addresses holds invalid ones: the header's name, and every
    /// invalid entry, in lexicographic order.
    InvalidEmails { header: String, offending: Vec<String> },
    /// The general section holds a key that the configuration does not
    /// know. Holds the key.
    UnrecognizedDatum(String),
    /// A recipient's key is no valid email address. Holds the key.
    InvalidRecipientEmail(String),
    /// A recipient has no data at all, not even a name. Holds the
    /// recipient's key.
    EmptyRecipientData(String),
    /// One datum of a recipient was turned down: the recipient's key, and
    /// what was wrong.
    RecipientDataError { email: String, inner: DatumError },
}

/// A `ConfigError` with its strings as character sequences.
pub enum ConfigErrorView {
    MissingSection(Seq<char>),
    MissingFrom,
    MissingSubject,
    NoRecipients,
    InvalidFrom(Seq<char>),
    NoEmails(Seq<char>),
    InvalidEmails { header: Seq<char>, offending: Seq<Seq<char>> },
    UnrecognizedDatum(Seq<char>),
    InvalidRecipientEmail(Seq<char>),
    EmptyRecipientData(Seq<char>),
    RecipientDataError { email: Seq<char>, inner: DatumErrorView },
}

impl ConfigErrorView {
    /// The text that tells of the error.
    pub open spec fn message(self) -> Seq<char> {
        match self {
            ConfigErrorView::MissingSection(name) => "No *"@ + name + "* section in config file"@,
            ConfigErrorView::MissingFrom => "No *From* header in the general section"@,
            ConfigErrorView::MissingSubject => "No *Subject* in the general section"@,
            ConfigErrorView::NoRecipients => "No email recipients found in config file"@,
            ConfigErrorView::InvalidFrom(value) => "invalid *From* email: "@ + value,
            ConfigErrorView::NoEmails(header) => "no emails for *"@ + header + "* header"@,
            ConfigErrorView::InvalidEmails { header, offending } => "invalid *"@ + header
                + "* email(s): "@ + join(offending, ", "@),
            ConfigErrorView::UnrecognizedDatum(key) => "invalid configuration datum: *"@ + key
                + "*"@,
            ConfigErrorView::InvalidRecipientEmail(key) => "invalid email: "@ + key,
            ConfigErrorView::EmptyRecipientData(key) => "invalid data for email: "@ + key,
            ConfigErrorView::RecipientDataError { email, inner } => "invalid recipient data for "@
                + email + " ("@ + inner.message() + ")"@,
        }
    }
}

impl View for ConfigError {
    type V = ConfigErrorView;

    open spec fn view(&self) -> ConfigErrorView {
        match self {
            ConfigError::MissingSection(name) => ConfigErrorView::MissingSection(name@),
            ConfigError::MissingFrom => ConfigErrorView::MissingFrom,
            ConfigError::MissingSubject => ConfigErrorView::MissingSubject,
            ConfigError::NoRecipients => ConfigErrorView::NoRecipients,
            ConfigError::InvalidFrom(value) => ConfigErrorView::InvalidFrom(value@),
            ConfigError::NoEmails(header) => ConfigErrorView::NoEmails(header@),
            ConfigError::InvalidEmails { header, offending } => ConfigErrorView::InvalidEmails {
                header: header@,
                offending: views(offending@),
            },
            ConfigError::UnrecognizedDatum(key) => ConfigErrorView::UnrecognizedDatum(key@),
            ConfigError::InvalidRecipientEmail(key) => ConfigErrorView::InvalidRecipientEmail(key@),
            ConfigError::EmptyRecipientData(key) => ConfigErrorView::EmptyRecipientData(key@),
            ConfigError::RecipientDataError { email, inner } => ConfigErrorView::RecipientDataError {
                email: email@,
                inner: inner@,
            },
        }
    }
}

impl ConfigError {
    /// The text that tells of the error.
    pub fn message(&self) -> (r: String)
        ensures
            r@ == self@.message(),
    {
        match self {
            ConfigError::MissingSection(name) => String::from_str("No *").concat(
                name.as_str(),
            ).concat("* section in config file"),
            ConfigError::MissingFrom => String::from_str("No *From* header in the general section"),
            ConfigError::MissingSubject => String::from_str("No *Subject* in the general section"),
            ConfigError::NoRecipients => String::from_str(
                "No email recipients found in config file",
            ),
            ConfigError::InvalidFrom(value) => String::from_str("invalid *From* email: ").concat(
                value.as_str(),
            ),
            ConfigError::NoEmails(header) => String::from_str("no emails for *").concat(
                header.as_str(),
            ).concat("* header"),
            ConfigError::InvalidEmails { header, offending } => {
                let list = join_strings(offending, ", ");
                String::from_str("invalid *").concat(header.as_str()).concat(
                    "* email(s): ",
                ).concat(list.as_str())
            },
            ConfigError::UnrecognizedDatum(key) => String::from_str(
                "invalid configuration datum: *",
            ).concat(key.as_str()).concat("*"),
            ConfigError::InvalidRecipientEmail(key) => String::from_str("invalid email: ").concat(
                key.as_str(),
            ),
            ConfigError::EmptyRecipientData(key) => String::from_str(
                "invalid data for email: ",
            ).concat(key.as_str()),
            ConfigError::RecipientDataError { email, inner } => {
                let why = inner.message();
                String::from_str("invalid recipient data for ").concat(email.as_str()).concat(
                    " (",
                ).concat(why.as_str()).concat(")")
            },
        }
    }
}

} // verus!
