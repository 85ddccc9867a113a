//! Why a request was refused, and how the user is told.

use vstd::prelude::*;

use crate::number::{decimal, push_number};

verus! {

/// The reason for which a request changed nothing.
#[derive(Debug)]
pub enum Refusal {
    /// The text of a fact has more characters than the limit allows.
    TooLong { length: usize, limit: usize },
    /// A new fact has neither text nor check.
    NothingToStore,
    /// An edit names no field.
    NothingToChange,
    /// No fact has this id.
    NoFact { id: String },
    /// An edit would leave neither text nor check.
    WouldBeEmpty,
    /// A query holds no word of two characters or more.
    EmptyQuery,
    /// This is not a number of days.
    BadStale { value: String },
    /// There is no store to edit by hand.
    NothingToCurate,
    /// A sheet holds no fact.
    EmptySheet,
    /// A line of a sheet has neither text nor check; the fact's id, or `(new)`.
    EmptyFact { label: String },
    /// A sheet names an id that no fact has, or names it again.
    UnknownId { id: String },
    /// A line of a sheet that holds no field.
    EmptyLine { line: String },
    /// A line of a sheet with a field that is neither tags nor a date.
    Unreadable { line: String },
}

/// What a refusal says.
#[verifier::ext_equal]
pub enum Reason {
    TooLong { length: nat, limit: nat },
    NothingToStore,
    NothingToChange,
    NoFact { id: Seq<char> },
    WouldBeEmpty,
    EmptyQuery,
    BadStale { value: Seq<char> },
    NothingToCurate,
    EmptySheet,
    EmptyFact { label: Seq<char> },
    UnknownId { id: Seq<char> },
    EmptyLine { line: Seq<char> },
    Unreadable { line: Seq<char> },
}

impl View for Refusal {
    type V = Reason;

    open spec fn view(&self) -> Reason {
        match *self {
            Refusal::TooLong { length, limit } => Reason::TooLong {
                length: length as nat,
                limit: limit as nat,
            },
            Refusal::NothingToStore => Reason::NothingToStore,
            Refusal::NothingToChange => Reason::NothingToChange,
            Refusal::NoFact { id } => Reason::NoFact { id: id@ },
            Refusal::WouldBeEmpty => Reason::WouldBeEmpty,
            Refusal::EmptyQuery => Reason::EmptyQuery,
            Refusal::BadStale { value } => Reason::BadStale { value: value@ },
            Refusal::NothingToCurate => Reason::NothingToCurate,
            Refusal::EmptySheet => Reason::EmptySheet,
            Refusal::EmptyFact { label } => Reason::EmptyFact { label: label@ },
            Refusal::UnknownId { id } => Reason::UnknownId { id: id@ },
            Refusal::EmptyLine { line } => Reason::EmptyLine { line: line@ },
            Refusal::Unreadable { line } => Reason::Unreadable { line: line@ },
        }
    }
}

/// What the user reads.
pub open spec fn message_of(r: Reason) -> Seq<char> {
    match r {
        Reason::TooLong { length, limit } => "fact too long ("@ + decimal(length) + " > "@
            + decimal(limit)
            + " chars) -> not stored. One rule per fact: split into atomic facts, prefix with topic (`azure db: ...`), move commands to -c"@,
        Reason::NothingToStore => "nothing to store: give fact text and/or --check <cmd>"@,
        Reason::NothingToChange => "nothing to change: give new text, --check and/or --tags"@,
        Reason::NoFact { id } => "no fact with id '"@ + id + "'"@,
        Reason::WouldBeEmpty =>
        "edit would leave the fact empty; use `factsheet drop` instead"@,
        Reason::EmptyQuery => "empty query: give at least one word of 2+ characters"@,
        Reason::BadStale { value } => "bad --stale value '"@ + value + "', expected e.g. 30d"@,
        Reason::NothingToCurate => "no facts to curate"@,
        Reason::EmptySheet => "empty sheet"@,
        Reason::EmptyFact { label } => "empty fact: "@ + label,
        Reason::UnknownId { id } => "unknown or repeated id '"@ + id + "'"@,
        Reason::EmptyLine { line } => "empty line: "@ + line,
        Reason::Unreadable { line } => "cannot parse: "@ + line,
    }
}

fn around(before: &str, middle: &str, after: &str) -> (s: String)
    ensures
        s@ == before@ + middle@ + after@,
{
    let mut s = before.to_owned();
    s.append(middle);
    s.append(after);
    s
}

fn after_label(label: &str, rest: &str) -> (s: String)
    ensures
        s@ == label@ + rest@,
{
    let mut s = label.to_owned();
    s.append(rest);
    s
}

impl Refusal {
    /// The message for the user.
    pub fn message(&self) -> (s: String)
        ensures
            s@ == message_of(self@),
    {
        match self {
            Refusal::TooLong { length, limit } => {
                let mut s = "fact too long (".to_owned();
                push_number(&mut s, *length as u128);
                s.append(" > ");
                push_number(&mut s, *limit as u128);
                s.append(
                    " chars) -> not stored. One rule per fact: split into atomic facts, prefix with topic (`azure db: ...`), move commands to -c",
                );
                s
            },
            Refusal::NothingToStore => {
                "nothing to store: give fact text and/or --check <cmd>".to_owned()
            },
            Refusal::NothingToChange => {
                "nothing to change: give new text, --check and/or --tags".to_owned()
            },
            Refusal::NoFact { id } => around("no fact with id '", id, "'"),
            Refusal::WouldBeEmpty => {
                "edit would leave the fact empty; use `factsheet drop` instead".to_owned()
            },
            Refusal::EmptyQuery => {
                "empty query: give at least one word of 2+ characters".to_owned()
            },
            Refusal::BadStale { value } => around(
                "bad --stale value '",
                value,
                "', expected e.g. 30d",
            ),
            Refusal::NothingToCurate => "no facts to curate".to_owned(),
            Refusal::EmptySheet => "empty sheet".to_owned(),
            Refusal::EmptyFact { label } => after_label("empty fact: ", label),
            Refusal::UnknownId { id } => around("unknown or repeated id '", id, "'"),
            Refusal::EmptyLine { line } => after_label("empty line: ", line),
            Refusal::Unreadable { line } => after_label("cannot parse: ", line),
        }
    }
}

/// The outcome of a request that yields nothing.
pub open spec fn outcome(r: Result<(), Refusal>) -> Result<(), Reason> {
    match r {
        Ok(_) => Ok(()),
        Err(e) => Err(e@),
    }
}

/// Whether a message holds a part.
pub open spec fn tells(message: Seq<char>, part: Seq<char>) -> bool {
    exists|i: int|
        0 <= i && i + part.len() <= message.len() && #[trigger] message.subrange(
            i,
            i + part.len(),
        ) == part
}

proof fn lemma_tells(a: Seq<char>, part: Seq<char>, b: Seq<char>)
    ensures
        tells(a + part + b, part),
{
    let s = a + part + b;
    let i = a.len() as int;
    assert(s.subrange(i, i + part.len()) =~= part);
}

/// The user is told what the refusal is about: the id, the value or the line as it was given, and
/// of a text that is too long both its length and the limit.
pub proof fn law_message_tells(r: Reason)
    ensures
        match r {
            Reason::TooLong { length, limit } => tells(message_of(r), decimal(length)) && tells(
                message_of(r),
                decimal(limit),
            ),
            Reason::NoFact { id } => tells(message_of(r), id),
            Reason::BadStale { value } => tells(message_of(r), value),
            Reason::EmptyFact { label } => tells(message_of(r), label),
            Reason::UnknownId { id } => tells(message_of(r), id),
            Reason::EmptyLine { line } => tells(message_of(r), line),
            Reason::Unreadable { line } => tells(message_of(r), line),
            _ => true,
        },
{
    let none = Seq::<char>::empty();
    match r {
        Reason::TooLong { length, limit } => {
            let end =
                " chars) -> not stored. One rule per fact: split into atomic facts, prefix with topic (`azure db: ...`), move commands to -c"@;
            lemma_tells("fact too long ("@, decimal(length), " > "@ + decimal(limit) + end);
            assert("fact too long ("@ + decimal(length) + (" > "@ + decimal(limit) + end)
                =~= message_of(r));
            lemma_tells("fact too long ("@ + decimal(length) + " > "@, decimal(limit), end);
        },
        Reason::NoFact { id } => lemma_tells("no fact with id '"@, id, "'"@),
        Reason::BadStale { value } => lemma_tells(
            "bad --stale value '"@,
            value,
            "', expected e.g. 30d"@,
        ),
        Reason::EmptyFact { label } => {
            lemma_tells("empty fact: "@, label, none);
            assert("empty fact: "@ + label + none =~= message_of(r));
        },
        Reason::UnknownId { id } => lemma_tells("unknown or repeated id '"@, id, "'"@),
        Reason::EmptyLine { line } => {
            lemma_tells("empty line: "@, line, none);
            assert("empty line: "@ + line + none =~= message_of(r));
        },
        Reason::Unreadable { line } => {
            lemma_tells("cannot parse: "@, line, none);
            assert("cannot parse: "@ + line + none =~= message_of(r));
        },
        _ => {},
    }
}

} // verus!
