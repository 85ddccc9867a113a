//! What a request to add, edit, drop or list facts comes to.

use vstd::prelude::*;

use crate::commands::{
    added_lines, age_asked, facts_dropped, facts_edited, facts_listed, full_lines, has_other_id,
    is_listed, is_wanted, new_fact, new_fact_checked, ChangeText,
};
use crate::date::{day_of_text, days_named};
use crate::fact::{
    cleaned, full_line, law_clean_tags, lemma_position, length_checked, position_of, FactText,
};
use crate::form::{law_one_line_empty, law_trimmed, lemma_no_words};
use crate::id::is_taken;
use crate::keeping::law_dropped_facts;
use crate::refusal::Reason;
use crate::report::{similar_lines, LineText};
use crate::text::{is_white, on_one_line, trimmed};
use crate::words::fact_words;

verus! {

/// Whether a text is white space, or empty.
pub open spec fn is_all_white(s: Seq<char>) -> bool {
    forall|i: int| 0 <= i < s.len() ==> is_white(#[trigger] s[i])
}

pub proof fn lemma_all_white(s: Seq<char>)
    ensures
        is_all_white(s) <==> trimmed(s).len() == 0,
    decreases s.len(),
{
    law_trimmed(s);
    if trimmed(s).len() == 0 {
        lemma_no_words(s);
    }
    if is_all_white(s) {
        lemma_white_trims(s);
    }
}

proof fn lemma_white_trims(s: Seq<char>)
    requires
        is_all_white(s),
    ensures
        trimmed(s).len() == 0,
    decreases s.len(),
{
    if s.len() > 0 {
        let rest = s.drop_first();
        assert forall|i: int| 0 <= i < rest.len() implies is_white(#[trigger] rest[i]) by {
            assert(rest[i] == s[i + 1]);
        }
        assert(is_white(s[0]));
        lemma_white_trims(rest);
    }
}

/// A text is within the limit exactly if it has no more characters than the limit allows; a refusal
/// tells both numbers.
pub proof fn law_length_limit(text: Seq<char>, limit: nat)
    ensures
        length_checked(text, limit) is Ok <==> text.len() <= limit,
        text.len() > limit ==> length_checked(text, limit) == Err::<(), Reason>(
            Reason::TooLong { length: text.len(), limit },
        ),
{
}

// ---- add ----

/// A new fact is refused if text and check are white space, and if its text, without the white
/// space at its ends, is over the limit; it is refused for nothing else.
pub proof fn law_add_refused(text: Seq<char>, check: Seq<char>, limit: nat)
    ensures
        new_fact_checked(text, check, limit) == Err::<(), Reason>(Reason::NothingToStore)
            <==> is_all_white(text) && is_all_white(check),
        !(is_all_white(text) && is_all_white(check)) && trimmed(text).len() > limit
            ==> new_fact_checked(text, check, limit) == Err::<(), Reason>(
            Reason::TooLong { length: trimmed(text).len(), limit },
        ),
        new_fact_checked(text, check, limit) is Ok <==> !(is_all_white(text) && is_all_white(check))
            && trimmed(text).len() <= limit,
{
    lemma_all_white(text);
    lemma_all_white(check);
}

/// A new fact holds what was asked for: the given text and check, each on one line, the given tags
/// without repeats, and today's date. The user is shown the fact first, and then those that it
/// resembles.
pub proof fn law_added_content(
    facts: Seq<FactText>,
    text: Seq<char>,
    check: Seq<char>,
    tags: Seq<Seq<char>>,
    today: Seq<char>,
    seed: u64,
)
    ensures
        ({
            let f = new_fact(facts, text, check, tags, today, seed);
            &&& f.text == on_one_line(text)
            &&& f.check == on_one_line(check)
            &&& f.tags == cleaned(tags)
            &&& f.ts == today
            &&& added_lines(facts, f).len() == 1 + similar_lines(facts, fact_words(f)).len()
            &&& added_lines(facts, f)[0] == LineText::Text(full_line(f))
            &&& forall|i: int|
                0 <= i < similar_lines(facts, fact_words(f)).len() ==> added_lines(facts, f)[i + 1]
                    == #[trigger] similar_lines(facts, fact_words(f))[i]
        }),
{
}

// ---- edit ----

/// After an edit the first fact with the id has every field that the change does not name as
/// before, and every field that it names as given: text and check on one line, tags without
/// repeats. Its id stays, its date is today's exactly if a text or a check is named, and all other
/// facts are as before.
pub proof fn law_edit_replaces_named_fields(
    facts: Seq<FactText>,
    id: Seq<char>,
    c: ChangeText,
    limit: nat,
    today: Seq<char>,
    k: int,
)
    requires
        0 <= k < facts.len(),
        facts[k].id == id,
        forall|j: int| 0 <= j < k ==> (#[trigger] facts[j]).id != id,
    ensures
        facts_edited(facts, id, c, limit, today) matches Ok((after, f)) ==> {
            &&& after.len() == facts.len()
            &&& after[k] == f
            &&& forall|i: int| 0 <= i < facts.len() && i != k ==> #[trigger] after[i] == facts[i]
            &&& f.id == id
            &&& c.text is None ==> f.text == facts[k].text
            &&& c.text is Some ==> f.text == on_one_line(c.text->Some_0)
            &&& c.check is None ==> f.check == facts[k].check
            &&& c.check is Some ==> f.check == on_one_line(c.check->Some_0)
            &&& c.tags is None ==> f.tags == facts[k].tags
            &&& c.tags is Some ==> f.tags == cleaned(c.tags->Some_0)
            &&& c.text is None && c.check is None ==> f.ts == facts[k].ts
            &&& c.text is Some || c.check is Some ==> f.ts == today
        },
{
    lemma_position(facts, id);
    let i = position_of(facts, id)->Some_0;
    assert(facts[i].id == id);
    assert(i == k);
}

/// What is empty of a fact after a change: the named field if there is one, else the old one.
pub open spec fn empty_after(named: Option<Seq<char>>, kept: Seq<char>) -> bool {
    match named {
        Some(t) => is_all_white(t),
        None => kept.len() == 0,
    }
}

/// An edit is refused if it names no field, if no fact has the id, if the text is over the limit,
/// or if it would leave neither text nor check; it is refused for nothing else, and for the first
/// of these reasons.
pub proof fn law_edit_refused(
    facts: Seq<FactText>,
    id: Seq<char>,
    c: ChangeText,
    limit: nat,
    today: Seq<char>,
)
    ensures
        ({
            let names_none = c.text is None && c.check is None && c.tags is None;
            let too_long = c.text is Some && trimmed(c.text->Some_0).len() > limit;
            let r = facts_edited(facts, id, c, limit, today);
            &&& names_none ==> r == Err::<(Seq<FactText>, FactText), Reason>(Reason::NothingToChange)
            &&& !names_none && (forall|k: int|
                0 <= k < facts.len() ==> (#[trigger] facts[k]).id != id) ==> r == Err::<
                (Seq<FactText>, FactText),
                Reason,
            >(Reason::NoFact { id })
            &&& forall|k: int|
                0 <= k < facts.len() && !names_none && (#[trigger] facts[k]).id == id && (forall|
                    j: int,
                |
                    0 <= j < k ==> (#[trigger] facts[j]).id != id) ==> {
                    let empty = empty_after(c.text, facts[k].text) && empty_after(
                        c.check,
                        facts[k].check,
                    );
                    &&& too_long ==> r == Err::<(Seq<FactText>, FactText), Reason>(
                        Reason::TooLong { length: trimmed(c.text->Some_0).len(), limit },
                    )
                    &&& !too_long && empty ==> r == Err::<(Seq<FactText>, FactText), Reason>(
                        Reason::WouldBeEmpty,
                    )
                    &&& !too_long && !empty ==> r is Ok
                }
        }),
{
    lemma_position(facts, id);
    if let Some(t) = c.text {
        lemma_all_white(t);
        law_one_line_empty(t);
    }
    if let Some(t) = c.check {
        lemma_all_white(t);
        law_one_line_empty(t);
    }
    if let Some(i) = position_of(facts, id) {
        assert forall|k: int|
            0 <= k < facts.len() && (#[trigger] facts[k]).id == id && (forall|j: int|
                0 <= j < k ==> (#[trigger] facts[j]).id != id) implies k == i by {
            assert(facts[i].id == id);
        }
    }
}

// ---- drop ----

/// A drop leaves the other facts in their order, each as often as before.
pub proof fn law_drop_leaves_others(facts: Seq<FactText>, id: Seq<char>)
    ensures
        facts_dropped(facts, id) matches Ok(rest) ==> rest == facts.filter(
            |f: FactText| f.id != id,
        ),
        facts_dropped(facts, id) is Ok <==> exists|k: int|
            0 <= k < facts.len() && (#[trigger] facts[k]).id == id,
{
    law_dropped_facts(facts, id);
    let others = |f: FactText| f.id != id;
    assert(others =~= has_other_id(id));
    if is_taken(facts, id) {
        let k = choose|k: int| 0 <= k < facts.len() && #[trigger] facts[k].id == id;
        assert(facts[k].id == id);
    }
    if exists|k: int| 0 <= k < facts.len() && (#[trigger] facts[k]).id == id {
        let k = choose|k: int| 0 <= k < facts.len() && (#[trigger] facts[k]).id == id;
        assert(facts[k].id == id);
    }
}

// ---- ls ----

/// Whether a fact carries one of the tags that are asked for; where only blank tags are asked for,
/// every fact does.
pub open spec fn carries_any(f: FactText, tags: Seq<Seq<char>>) -> bool {
    ||| forall|j: int| 0 <= j < tags.len() ==> is_all_white(#[trigger] tags[j])
    ||| exists|i: int, j: int|
        0 <= i < f.tags.len() && 0 <= j < tags.len() && (#[trigger] f.tags[i]).len() > 0
            && trimmed(#[trigger] tags[j]) == f.tags[i]
}

/// Whether the date of a fact is at least `n` days before today.
pub open spec fn is_aged(f: FactText, n: int, today: int) -> bool {
    day_of_text(f.ts) + n <= today
}

proof fn lemma_carries_any(f: FactText, tags: Seq<Seq<char>>)
    ensures
        is_wanted(f, cleaned(tags)) <==> carries_any(f, tags),
{
    let wanted = cleaned(tags);
    law_clean_tags(tags);
    if wanted.len() == 0 {
        assert forall|j: int| 0 <= j < tags.len() implies is_all_white(#[trigger] tags[j]) by {
            lemma_all_white(tags[j]);
            if trimmed(tags[j]).len() > 0 {
                assert(wanted.contains(trimmed(tags[j])));
            }
        }
    } else {
        assert(wanted.contains(wanted[0]));
        let j = choose|j: int| 0 <= j < tags.len() && trimmed(#[trigger] tags[j]) == wanted[0];
        lemma_all_white(tags[j]);
        assert(!is_all_white(tags[j]));
        if is_wanted(f, wanted) {
            let i = choose|i: int| 0 <= i < f.tags.len() && wanted.contains(#[trigger] f.tags[i]);
            let k = choose|k: int|
                0 <= k < tags.len() && trimmed(#[trigger] tags[k]) == f.tags[i];
            assert(f.tags[i].len() > 0 && trimmed(tags[k]) == f.tags[i]);
        }
        if carries_any(f, tags) {
            let (i, k) = choose|i: int, k: int|
                0 <= i < f.tags.len() && 0 <= k < tags.len() && (#[trigger] f.tags[i]).len() > 0
                    && trimmed(#[trigger] tags[k]) == f.tags[i];
            assert(wanted.contains(f.tags[i]));
        }
    }
}

/// A listing shows, in their order, the facts that carry a tag that is asked for and are as old as
/// is asked for; it is refused exactly if the age is no number of days.
pub proof fn law_listing(
    facts: Seq<FactText>,
    tags: Seq<Seq<char>>,
    stale: Option<Seq<char>>,
    now: int,
)
    ensures
        match facts_listed(facts, tags, stale, now) {
            Ok(lines) => {
                let n = match stale {
                    Some(s) => days_named(s)->Ok_0,
                    None => 0,
                };
                &&& stale matches Some(s) ==> days_named(s) is Ok
                &&& lines == facts.filter(
                    |f: FactText|
                        carries_any(f, tags) && (stale is Some ==> is_aged(f, n, now)),
                ).map_values(|f: FactText| full_line(f))
            },
            Err(e) => stale matches Some(s) && days_named(s) == Err::<int, Reason>(e),
        },
{
    if let Ok(min_age) = age_asked(stale) {
        let n = match stale {
            Some(s) => days_named(s)->Ok_0,
            None => 0,
        };
        let direct = |f: FactText| carries_any(f, tags) && (stale is Some ==> is_aged(f, n, now));
        let listed = is_listed(cleaned(tags), min_age, now);
        assert forall|f: FactText| #[trigger] listed(f) == direct(f) by {
            lemma_carries_any(f, tags);
        }
        assert(listed =~= direct);
        let shown = facts.filter(direct);
        assert(full_lines(shown) =~= shown.map_values(|f: FactText| full_line(f)));
    }
}

/// A listing by tags and by age shows exactly the facts that the listing by these tags and the
/// listing by this age both show, and every fact that it shows was last changed at least so many
/// days ago, whatever tags are asked for.
pub proof fn law_conditions_add_up(
    facts: Seq<FactText>,
    tags: Seq<Seq<char>>,
    stale: Seq<char>,
    now: int,
    f: FactText,
)
    requires
        days_named(stale) is Ok,
    ensures
        ({
            let n = days_named(stale)->Ok_0;
            let none = Seq::<Seq<char>>::empty();
            let both = facts.filter(is_listed(cleaned(tags), Some(n), now));
            let by_tags = facts.filter(is_listed(cleaned(tags), None, now));
            let by_age = facts.filter(is_listed(none, Some(n), now));
            &&& facts_listed(facts, tags, Some(stale), now) == Ok::<Seq<Seq<char>>, Reason>(
                both.map_values(|g: FactText| full_line(g)),
            )
            &&& facts_listed(facts, tags, None, now) == Ok::<Seq<Seq<char>>, Reason>(
                by_tags.map_values(|g: FactText| full_line(g)),
            )
            &&& facts_listed(facts, none, Some(stale), now) == Ok::<Seq<Seq<char>>, Reason>(
                by_age.map_values(|g: FactText| full_line(g)),
            )
            &&& both.contains(f) <==> by_tags.contains(f) && by_age.contains(f)
            &&& both.contains(f) ==> now - day_of_text(f.ts) >= n
        }),
{
    let n = days_named(stale)->Ok_0;
    let none = Seq::<Seq<char>>::empty();
    assert(cleaned(none) =~= none);
    let p = is_listed(cleaned(tags), Some(n), now);
    let q = is_listed(cleaned(tags), None, now);
    let r = is_listed(none, Some(n), now);
    assert(full_lines(facts.filter(p)) =~= facts.filter(p).map_values(|g: FactText| full_line(g)));
    assert(full_lines(facts.filter(q)) =~= facts.filter(q).map_values(|g: FactText| full_line(g)));
    assert(full_lines(facts.filter(r)) =~= facts.filter(r).map_values(|g: FactText| full_line(g)));
    lemma_filter_has(facts, p, f);
    lemma_filter_has(facts, q, f);
    lemma_filter_has(facts, r, f);
}

proof fn lemma_filter_has(facts: Seq<FactText>, p: spec_fn(FactText) -> bool, f: FactText)
    ensures
        facts.filter(p).contains(f) <==> facts.contains(f) && p(f),
{
    let rest = facts.filter(p);
    if rest.contains(f) {
        facts.lemma_filter_contains_rev(p, f);
        let k = choose|k: int| 0 <= k < rest.len() && rest[k] == f;
        facts.lemma_filter_pred(p, k);
    }
    if facts.contains(f) && p(f) {
        let k = choose|k: int| 0 <= k < facts.len() && facts[k] == f;
        facts.lemma_filter_contains(p, k);
    }
}

} // verus!
