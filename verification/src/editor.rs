//! The choice of an editor.

use vstd::prelude::*;

use crate::form::law_trimmed;
use crate::search::opt_text;
use crate::text::{split_words, texts, trim, trimmed, words_of};

verus! {

/// The command that opens an editor: the first one that is set, unless it is blank.
pub open spec fn editor_chosen(
    visual: Option<Seq<char>>,
    editor: Option<Seq<char>>,
    fallback: Seq<char>,
) -> Seq<char> {
    let set = match visual {
        Some(s) => Some(s),
        None => editor,
    };
    match set {
        Some(s) => if trimmed(s).len() > 0 {
            s
        } else {
            fallback
        },
        None => fallback,
    }
}

/// A command and the words that it is made of: the program, and then its arguments.
#[derive(Debug)]
pub struct Command {
    pub line: String,
    pub words: Vec<String>,
}

/// Chooses the command that opens an editor, from the settings that the environment has.
pub fn choose_editor(visual: Option<String>, editor: Option<String>, fallback: &str) -> (command:
    Command)
    ensures
        command.line@ == editor_chosen(opt_text(visual), opt_text(editor), fallback@),
        texts(command.words@) == words_of(command.line@),
{
    let set = match visual {
        Some(s) => Some(s),
        None => editor,
    };
    let line = match set {
        Some(s) => {
            if trim(&s).as_str().is_empty() {
                fallback.to_owned()
            } else {
                s
            }
        },
        None => fallback.to_owned(),
    };
    let words = split_words(&line);
    Command { line, words }
}

/// There is always a program to run, as long as there is one to fall back on.
pub proof fn law_editor_has_program(
    visual: Option<Seq<char>>,
    editor: Option<Seq<char>>,
    fallback: Seq<char>,
)
    requires
        trimmed(fallback).len() > 0,
    ensures
        words_of(editor_chosen(visual, editor, fallback)).len() > 0,
{
    law_trimmed(editor_chosen(visual, editor, fallback));
}

} // verus!
