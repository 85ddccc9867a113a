//! What a session starts with.

use vstd::prelude::*;

use crate::config::{problem_text, Config, Settings};
use crate::fact::{
    bare_line, is_reference, lemma_views_push, render_bare, views, Fact, FactText,
};
use crate::number::{decimal, push_number};
use crate::tally::{ref_footer, ref_note};
use crate::text::{extend_texts, push_text, texts};

verus! {

/// The rules for writing facts; a project without facts needs them too.
pub const INJECT_RULES: &'static str = "\
factsheet = persistent per-project memory (this CLI), injected each session start.
write: repeated error or gotcha a fresh session would hit again -> propose the exact fact to the user; only after approval `factsheet add \"fact\" -t tag`.
fix: fact seen wrong -> propose the change; only after approval `factsheet edit <id>` / `factsheet drop <id>`.
never add, edit or drop a fact without explicit user approval.
read: `factsheet ls` full view with tags and dates | full guide: `factsheet agent`.";

/// The instructions of the user, or why there are none.
pub open spec fn instruction_lines(s: Settings) -> Seq<Seq<char>> {
    match s.user_instructions {
        Ok(text) => if text.len() == 0 {
            Seq::empty()
        } else {
            seq!["---"@, text]
        },
        Err(problem) => seq![
            "---"@,
            "factsheet: config.toml: "@ + problem_text(problem)
                + ". User instructions were not injected. Tell the user to check the global factsheet/config.toml: use user_instructions = \"text\" or triple quotes for multiple lines; escape double quotes and backslashes in basic strings, or use literal single-quoted strings."@,
        ],
    }
}

/// The lines with the instructions of the user. A problem with the settings is told here too, so
/// that the session can report it.
pub fn say_user_instructions(config: &Config) -> (list: Vec<String>)
    ensures
        texts(list@) == instruction_lines(config@),
{
    let mut list: Vec<String> = Vec::new();
    match &config.user_instructions {
        Ok(text) => {
            if !text.as_str().is_empty() {
                push_text(&mut list, "---".to_owned());
                push_text(&mut list, text.clone());
            }
        },
        Err(problem) => {
            push_text(&mut list, "---".to_owned());
            let mut s = "factsheet: config.toml: ".to_owned();
            let why = problem.message();
            s.append(&why);
            s.append(
                ". User instructions were not injected. Tell the user to check the global factsheet/config.toml: use user_instructions = \"text\" or triple quotes for multiple lines; escape double quotes and backslashes in basic strings, or use literal single-quoted strings.",
            );
            push_text(&mut list, s);
        },
    }
    assert(texts(list@) =~= instruction_lines(config@));
    list
}

pub open spec fn is_hot() -> spec_fn(FactText) -> bool {
    |f: FactText| !is_reference(f)
}

pub open spec fn is_cold() -> spec_fn(FactText) -> bool {
    |f: FactText| is_reference(f)
}

pub open spec fn bare_lines(facts: Seq<FactText>) -> Seq<Seq<char>> {
    facts.map_values(|f: FactText| bare_line(f))
}

/// The first line: how many facts there are.
pub open spec fn memory_heading(hot: nat, refs: nat) -> Seq<char> {
    if refs == 0 {
        "## Project memory ("@ + decimal(hot) + ")"@
    } else {
        "## Project memory ("@ + decimal(hot) + " + "@ + decimal(refs) + " ref)"@
    }
}

/// The warning that there are too many facts for every session.
pub open spec fn hot_warning(hot: nat, limit: nat) -> Seq<char> {
    "hot: "@ + decimal(hot) + " > "@ + decimal(limit)
        + " -> curate: merge dups, drop dead, demote lookups to ref"@
}

/// What a session starts with: every fact but the reference facts, the rules, a note about the
/// reference facts, and the instructions of the user.
pub open spec fn session_lines(facts: Seq<FactText>, s: Settings) -> Seq<Seq<char>> {
    let hot = facts.filter(is_hot());
    let refs = facts.filter(is_cold());
    if facts.len() == 0 {
        seq!["## Project memory (empty)"@, INJECT_RULES@] + instruction_lines(s)
    } else {
        seq![memory_heading(hot.len(), refs.len())] + bare_lines(hot) + seq!["---"@, INJECT_RULES@]
            + (if refs.len() == 0 {
            Seq::empty()
        } else {
            seq![ref_note(refs)]
        }) + (if hot.len() > s.hot_warn {
            seq![hot_warning(hot.len(), s.hot_warn)]
        } else {
            Seq::empty()
        }) + instruction_lines(s)
    }
}

fn partition(facts: &[Fact]) -> (parts: (Vec<Fact>, Vec<Fact>))
    ensures
        views(parts.0@) == views(facts@).filter(is_hot()),
        views(parts.1@) == views(facts@).filter(is_cold()),
{
    let ghost all = views(facts@);
    let mut hot: Vec<Fact> = Vec::new();
    let mut refs: Vec<Fact> = Vec::new();
    proof {
        reveal(Seq::filter);
    }
    assert(views(hot@) =~= all.take(0).filter(is_hot()));
    assert(views(refs@) =~= all.take(0).filter(is_cold()));
    for i in 0..facts.len()
        invariant
            all == views(facts@),
            views(hot@) == all.take(i as int).filter(is_hot()),
            views(refs@) == all.take(i as int).filter(is_cold()),
    {
        assert(all.take(i + 1).drop_last() =~= all.take(i as int));
        proof {
            reveal(Seq::filter);
        }
        let f = facts[i].copied();
        if f.is_ref() {
            proof {
                lemma_views_push(refs@, f);
            }
            refs.push(f);
        } else {
            proof {
                lemma_views_push(hot@, f);
            }
            hot.push(f);
        }
    }
    assert(all.take(all.len() as int) =~= all);
    (hot, refs)
}

/// The lines that a session starts with.
pub fn inject(facts: &[Fact], config: &Config) -> (list: Vec<String>)
    ensures
        texts(list@) == session_lines(views(facts@), config@),
{
    let mut list: Vec<String> = Vec::new();
    let instructions = say_user_instructions(config);
    if facts.len() == 0 {
        push_text(&mut list, "## Project memory (empty)".to_owned());
        push_text(&mut list, INJECT_RULES.to_owned());
        extend_texts(&mut list, &instructions);
        assert(texts(list@) =~= session_lines(views(facts@), config@));
        return list;
    }
    let (hot, refs) = partition(facts);
    let ghost hot_facts = views(hot@);
    let mut heading = "## Project memory (".to_owned();
    push_number(&mut heading, hot.len() as u128);
    if refs.len() == 0 {
        heading.append(")");
    } else {
        heading.append(" + ");
        push_number(&mut heading, refs.len() as u128);
        heading.append(" ref)");
    }
    push_text(&mut list, heading);
    let ghost top = seq![memory_heading(hot@.len(), refs@.len())];
    assert(texts(list@) =~= top + bare_lines(hot_facts).take(0));
    for i in 0..hot.len()
        invariant
            hot_facts == views(hot@),
            texts(list@) == top + bare_lines(hot_facts).take(i as int),
    {
        let ghost before = texts(list@);
        let line = render_bare(&hot[i]);
        push_text(&mut list, line);
        assert(bare_lines(hot_facts)[i as int] == line@);
        assert(before.push(line@) =~= top + bare_lines(hot_facts).take(i + 1));
    }
    assert(bare_lines(hot_facts).take(hot_facts.len() as int) =~= bare_lines(hot_facts));
    push_text(&mut list, "---".to_owned());
    push_text(&mut list, INJECT_RULES.to_owned());
    if refs.len() > 0 {
        push_text(&mut list, ref_footer(&refs));
    }
    if hot.len() > config.hot_warn {
        let mut warning = "hot: ".to_owned();
        push_number(&mut warning, hot.len() as u128);
        warning.append(" > ");
        push_number(&mut warning, config.hot_warn as u128);
        warning.append(" -> curate: merge dups, drop dead, demote lookups to ref");
        push_text(&mut list, warning);
    }
    extend_texts(&mut list, &instructions);
    assert(texts(list@) =~= session_lines(views(facts@), config@));
    list
}

/// Reference facts stay out of the session and all others are in it: the lines behind the first
/// one, up to the rules, are the lines of the other facts, in their order.
pub proof fn law_references_stay_out(facts: Seq<FactText>, s: Settings)
    requires
        facts.len() > 0,
    ensures
        ({
            let hot = facts.filter(is_hot());
            let list = session_lines(facts, s);
            &&& list.len() > hot.len() + 2
            &&& list.subrange(1, 1 + hot.len() as int) == bare_lines(hot)
            &&& list[1 + hot.len() as int] == "---"@
            &&& list[2 + hot.len() as int] == INJECT_RULES@
            &&& forall|f: FactText| #[trigger]
                hot.contains(f) <==> facts.contains(f) && !is_reference(f)
        }),
{
    let hot = facts.filter(is_hot());
    let list = session_lines(facts, s);
    assert(list.subrange(1, 1 + hot.len() as int) =~= bare_lines(hot));
    assert forall|f: FactText| #[trigger] hot.contains(f) <==> facts.contains(f) && !is_reference(
        f,
    ) by {
        if hot.contains(f) {
            facts.lemma_filter_contains_rev(is_hot(), f);
            let k = choose|k: int| 0 <= k < hot.len() && hot[k] == f;
            facts.lemma_filter_pred(is_hot(), k);
        }
        if facts.contains(f) && !is_reference(f) {
            let k = choose|k: int| 0 <= k < facts.len() && facts[k] == f;
            facts.lemma_filter_contains(is_hot(), k);
        }
    }
}

/// The session ends with the instructions of the user, or with the problem that keeps them away.
pub proof fn law_instructions_come_last(facts: Seq<FactText>, s: Settings)
    ensures
        ({
            let list = session_lines(facts, s);
            let last = instruction_lines(s);
            &&& list.len() >= last.len()
            &&& list.skip(list.len() - last.len()) == last
        }),
{
    let list = session_lines(facts, s);
    let last = instruction_lines(s);
    assert(list.skip(list.len() - last.len()) =~= last);
}

} // verus!
