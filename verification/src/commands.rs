//! The commands that change the facts, and the one that lists them.

use vstd::prelude::*;

use crate::date::{
    date_fits, day_fits, day_of_text, days_from_ymd, days_named, integers_in,
    lemma_text_day_bound, parse_days,
};
use crate::fact::{
    check_len, clean_tags, cleaned, full_line, is_blank, is_reference, lemma_views_push,
    length_checked, position, position_of, render, views, Fact, FactText,
};
use crate::form::lemma_trimmed_is;
use crate::id::{free_id, new_id, seed_of};
use crate::refusal::{outcome, Reason, Refusal};
use crate::report::{shown, similar, similar_lines, Line, LineText};
use crate::search::opt_text;
use crate::session::is_cold;
use crate::text::{
    contains_text, on_one_line, one_line, pieces, push_text, same, texts, trim, trimmed, Separator,
};
use crate::words::fact_words;

verus! {

// ---- add ----

/// Whether a new fact may be stored: it has a text or a check, and its text is within the limit.
pub open spec fn new_fact_checked(text: Seq<char>, check: Seq<char>, limit: nat) -> Result<
    (),
    Reason,
> {
    if trimmed(text).len() == 0 && trimmed(check).len() == 0 {
        Err(Reason::NothingToStore)
    } else {
        length_checked(trimmed(text), limit)
    }
}

/// Refuses a new fact that has neither text nor check, or too long a text.
pub fn check_new_fact(text: &str, check: &str, limit: usize) -> (checked: Result<(), Refusal>)
    ensures
        outcome(checked) == new_fact_checked(text@, check@, limit as nat),
{
    let t = trim(text);
    let c = trim(check);
    if t.as_str().is_empty() && c.as_str().is_empty() {
        return Err(Refusal::NothingToStore);
    }
    check_len(&t, limit)
}

/// The fact that is stored for a request.
pub open spec fn new_fact(
    facts: Seq<FactText>,
    text: Seq<char>,
    check: Seq<char>,
    tags: Seq<Seq<char>>,
    today: Seq<char>,
    seed: u64,
) -> FactText {
    FactText {
        id: free_id(facts, seed),
        text: on_one_line(text),
        check: on_one_line(check),
        tags: cleaned(tags),
        ts: today,
    }
}

/// The lines that follow the storing of a fact: the fact, and those that it resembles.
pub open spec fn added_lines(facts: Seq<FactText>, f: FactText) -> Seq<LineText> {
    seq![LineText::Text(full_line(f))] + similar_lines(facts, fact_words(f))
}

/// Makes a new fact for the given facts. Facts that it resembles are pointed out; they are no
/// reason to refuse it.
pub fn add(
    facts: &[Fact],
    text: &str,
    check: &str,
    tags: &[String],
    limit: usize,
    today: &str,
    nanos: u64,
    process: u32,
) -> (added: Result<(Fact, Vec<Line>), Refusal>)
    ensures
        match (added, new_fact_checked(text@, check@, limit as nat)) {
            (Ok((f, list)), Ok(_)) => {
                &&& f@ == new_fact(
                    views(facts@),
                    text@,
                    check@,
                    texts(tags@),
                    today@,
                    seed_of(nanos, process),
                )
                &&& shown(list@) == added_lines(views(facts@), f@)
            },
            (Err(e), Err(reason)) => e@ == reason,
            _ => false,
        },
{
    match check_new_fact(text, check, limit) {
        Err(e) => {
            return Err(e);
        },
        Ok(_) => {},
    }
    let f = Fact {
        id: new_id(facts, nanos, process),
        text: one_line(text),
        check: one_line(check),
        tags: clean_tags(tags),
        ts: today.to_owned(),
    };
    let mut list: Vec<Line> = Vec::new();
    let first = Line::Text(render(&f));
    list.push(first);
    let words = f.words();
    let mut more = similar(facts, &words);
    let ghost rest = more@;
    list.append(&mut more);
    assert(shown(list@) =~= seq![first@] + shown(rest));
    Ok((f, list))
}

// ---- edit ----

/// A request to change a fact: every field that is given replaces the old one.
#[derive(Debug)]
pub struct Change {
    pub text: Option<String>,
    pub check: Option<String>,
    pub tags: Option<Vec<String>>,
}

#[verifier::ext_equal]
pub struct ChangeText {
    pub text: Option<Seq<char>>,
    pub check: Option<Seq<char>>,
    pub tags: Option<Seq<Seq<char>>>,
}

impl View for Change {
    type V = ChangeText;

    open spec fn view(&self) -> ChangeText {
        ChangeText {
            text: opt_text(self.text),
            check: opt_text(self.check),
            tags: match self.tags {
                Some(list) => Some(texts(list@)),
                None => None,
            },
        }
    }
}

/// A fact after a change. A new text or check makes `today` its date; new tags alone do not.
pub open spec fn fact_changed(f: FactText, c: ChangeText, today: Seq<char>) -> FactText {
    FactText {
        id: f.id,
        text: match c.text {
            Some(t) => on_one_line(t),
            None => f.text,
        },
        check: match c.check {
            Some(t) => on_one_line(t),
            None => f.check,
        },
        tags: match c.tags {
            Some(t) => cleaned(t),
            None => f.tags,
        },
        ts: if c.text is Some || c.check is Some {
            today
        } else {
            f.ts
        },
    }
}

/// Whether a change names a field.
pub open spec fn change_checked(c: ChangeText) -> Result<(), Reason> {
    if c.text is None && c.check is None && c.tags is None {
        Err(Reason::NothingToChange)
    } else {
        Ok(())
    }
}

/// Refuses a change that names no field.
pub fn check_change(change: &Change) -> (checked: Result<(), Refusal>)
    ensures
        outcome(checked) == change_checked(change@),
{
    if change.text.is_none() && change.check.is_none() && change.tags.is_none() {
        Err(Refusal::NothingToChange)
    } else {
        Ok(())
    }
}

/// The facts after a change to the first one with the given id, and the fact that changed.
pub open spec fn facts_edited(
    facts: Seq<FactText>,
    id: Seq<char>,
    c: ChangeText,
    limit: nat,
    today: Seq<char>,
) -> Result<(Seq<FactText>, FactText), Reason> {
    match (change_checked(c), position_of(facts, id)) {
        (Err(e), _) => Err(e),
        (Ok(_), None) => Err(Reason::NoFact { id }),
        (Ok(_), Some(i)) => {
            let f = fact_changed(facts[i], c, today);
            match c.text {
                Some(t) if length_checked(trimmed(t), limit) is Err => Err(
                    length_checked(trimmed(t), limit)->Err_0,
                ),
                _ => if is_blank(f) {
                    Err(Reason::WouldBeEmpty)
                } else {
                    Ok((facts.update(i, f), f))
                },
            }
        },
    }
}

/// Changes the first fact with the given id, and shows it.
pub fn edit(facts: Vec<Fact>, id: &str, change: Change, limit: usize, today: &str) -> (edited: Result<
    (Vec<Fact>, String),
    Refusal,
>)
    ensures
        match (edited, facts_edited(views(facts@), id@, change@, limit as nat, today@)) {
            (Ok((list, line)), Ok((after, f))) => views(list@) == after && line@ == full_line(f),
            (Err(e), Err(reason)) => e@ == reason,
            _ => false,
        },
{
    match check_change(&change) {
        Err(e) => {
            return Err(e);
        },
        Ok(_) => {},
    }
    let i = match position(&facts, id) {
        None => {
            return Err(Refusal::NoFact { id: id.to_owned() });
        },
        Some(i) => i,
    };
    let ghost before = views(facts@);
    let ghost c = change@;
    let mut facts = facts;
    let mut f = facts[i].copied();
    let content_changed = change.text.is_some() || change.check.is_some();
    if let Some(t) = &change.text {
        let short = trim(t);
        match check_len(&short, limit) {
            Err(e) => {
                return Err(e);
            },
            Ok(_) => {},
        }
        f.text = one_line(t);
    }
    if let Some(t) = &change.check {
        f.check = one_line(t);
    }
    if let Some(t) = &change.tags {
        f.tags = clean_tags(t);
    }
    if content_changed {
        f.ts = today.to_owned();
    }
    assert(f@ =~= fact_changed(before[i as int], c, today@));
    if f.text.as_str().is_empty() && f.check.as_str().is_empty() {
        return Err(Refusal::WouldBeEmpty);
    }
    let line = render(&f);
    let ghost new = f@;
    facts[i] = f;
    assert(views(facts@) =~= before.update(i as int, new));
    Ok((facts, line))
}

// ---- drop ----

pub open spec fn has_other_id(id: Seq<char>) -> spec_fn(FactText) -> bool {
    |f: FactText| f.id != id
}

/// The facts without those that have the given id.
pub open spec fn facts_dropped(facts: Seq<FactText>, id: Seq<char>) -> Result<
    Seq<FactText>,
    Reason,
> {
    let rest = facts.filter(has_other_id(id));
    if rest.len() < facts.len() {
        Ok(rest)
    } else {
        Err(Reason::NoFact { id })
    }
}

/// Drops the facts with the given id, and says so.
pub fn drop_fact(facts: Vec<Fact>, id: &str) -> (dropped: Result<(Vec<Fact>, String), Refusal>)
    ensures
        match (dropped, facts_dropped(views(facts@), id@)) {
            (Ok((list, line)), Ok(rest)) => views(list@) == rest && line@ == "dropped "@ + id@,
            (Err(e), Err(reason)) => e@ == reason,
            _ => false,
        },
{
    let ghost all = views(facts@);
    let mut rest: Vec<Fact> = Vec::new();
    proof {
        reveal(Seq::filter);
    }
    assert(views(rest@) =~= all.take(0).filter(has_other_id(id@)));
    for i in 0..facts.len()
        invariant
            all == views(facts@),
            views(rest@) == all.take(i as int).filter(has_other_id(id@)),
    {
        assert(all.take(i + 1).drop_last() =~= all.take(i as int));
        proof {
            reveal(Seq::filter);
        }
        if !same(&facts[i].id, id) {
            let f = facts[i].copied();
            proof {
                lemma_views_push(rest@, f);
            }
            rest.push(f);
        }
    }
    assert(all.take(all.len() as int) =~= all);
    if rest.len() < facts.len() {
        let mut line = "dropped ".to_owned();
        line.append(id);
        Ok((rest, line))
    } else {
        Err(Refusal::NoFact { id: id.to_owned() })
    }
}

// ---- ls ----

/// Whether a fact carries one of the wanted tags; no wanted tags are no condition.
pub open spec fn is_wanted(f: FactText, wanted: Seq<Seq<char>>) -> bool {
    wanted.len() == 0 || exists|i: int|
        0 <= i < f.tags.len() && wanted.contains(#[trigger] f.tags[i])
}

/// Whether a fact was last changed the given number of days ago, or before; no number is no
/// condition.
pub open spec fn is_old(f: FactText, min_age: Option<int>, now: int) -> bool {
    match min_age {
        Some(n) => now - day_of_text(f.ts) >= n,
        None => true,
    }
}

pub open spec fn is_listed(wanted: Seq<Seq<char>>, min_age: Option<int>, now: int) -> spec_fn(
    FactText,
) -> bool {
    |f: FactText| is_wanted(f, wanted) && is_old(f, min_age, now)
}

pub open spec fn full_lines(facts: Seq<FactText>) -> Seq<Seq<char>> {
    facts.map_values(|f: FactText| full_line(f))
}

/// The age that a listing asks for.
pub open spec fn age_asked(stale: Option<Seq<char>>) -> Result<Option<int>, Reason> {
    match stale {
        None => Ok(None),
        Some(s) => match days_named(s) {
            Ok(n) => Ok(Some(n)),
            Err(e) => Err(e),
        },
    }
}

/// The lines of the facts that carry one of the wanted tags and are old enough.
pub open spec fn facts_listed(
    facts: Seq<FactText>,
    tags: Seq<Seq<char>>,
    stale: Option<Seq<char>>,
    now: int,
) -> Result<Seq<Seq<char>>, Reason> {
    match age_asked(stale) {
        Err(e) => Err(e),
        Ok(min_age) => Ok(full_lines(facts.filter(is_listed(cleaned(tags), min_age, now)))),
    }
}

fn wanted_fact(f: &Fact, wanted: &[String]) -> (hit: bool)
    ensures
        hit == is_wanted(f@, texts(wanted@)),
{
    if wanted.len() == 0 {
        return true;
    }
    for i in 0..f.tags.len()
        invariant
            forall|j: int| 0 <= j < i ==> !texts(wanted@).contains(#[trigger] f@.tags[j]),
    {
        if contains_text(wanted, &f.tags[i]) {
            assert(texts(wanted@).contains(f@.tags[i as int]));
            return true;
        }
    }
    false
}

/// The content of an optional text.
pub open spec fn opt_str(s: Option<&str>) -> Option<Seq<char>> {
    match s {
        Some(t) => Some(t@),
        None => None,
    }
}

/// Whether the ages of the facts that a listing looks at can be computed in 64 bits.
pub open spec fn ages_fit(
    facts: Seq<FactText>,
    tags: Seq<Seq<char>>,
    stale: Option<Seq<char>>,
) -> bool {
    stale is Some && age_asked(stale) is Ok ==> forall|i: int|
        0 <= i < facts.len() && is_wanted(#[trigger] facts[i], cleaned(tags)) ==> day_fits(
            day_of_text(facts[i].ts),
        )
}

/// Whether a listing can be computed: whether the dates that it looks at are not too far away.
pub fn can_list(facts: &[Fact], tags: &[String], stale: Option<&str>) -> (can: bool)
    ensures
        can == ages_fit(views(facts@), texts(tags@), opt_str(stale)),
{
    let asked = match stale {
        None => false,
        Some(s) => parse_days(s).is_ok(),
    };
    if !asked {
        return true;
    }
    let wanted = clean_tags(tags);
    for i in 0..facts.len()
        invariant
            texts(wanted@) == cleaned(texts(tags@)),
            stale is Some && age_asked(opt_str(stale)) is Ok,
            forall|k: int|
                0 <= k < i && is_wanted(#[trigger] views(facts@)[k], texts(wanted@)) ==> day_fits(
                    day_of_text(views(facts@)[k].ts),
                ),
    {
        assert(views(facts@)[i as int] == facts@[i as int]@);
        if wanted_fact(&facts[i], &wanted) && !date_fits(&facts[i].ts) {
            return false;
        }
    }
    true
}

/// Lists the facts that carry any of the given tags and were last changed `stale` days ago or
/// before.
pub fn ls(facts: &[Fact], tags: &[String], stale: Option<&str>, now: i64) -> (list: Result<
    Vec<String>,
    Refusal,
>)
    requires
        0 <= now <= i64::MAX - 719_528,
        ages_fit(views(facts@), texts(tags@), opt_str(stale)),
    ensures
        match (
            list,
            facts_listed(views(facts@), texts(tags@), opt_str(stale), now as int),
        ) {
            (Ok(lines), Ok(shown)) => texts(lines@) == shown,
            (Err(e), Err(reason)) => e@ == reason,
            _ => false,
        },
{
    let wanted = clean_tags(tags);
    let min_age: Option<i64> = match stale {
        None => None,
        Some(s) => match parse_days(s) {
            Err(e) => {
                return Err(e);
            },
            Ok(n) => Some(n),
        },
    };
    let ghost age: Option<int> = match min_age {
        Some(n) => Some(n as int),
        None => None,
    };
    let ghost all = views(facts@);
    let ghost pred = is_listed(texts(wanted@), age, now as int);
    let mut list: Vec<String> = Vec::new();
    proof {
        reveal(Seq::filter);
    }
    assert(texts(list@) =~= full_lines(all.take(0).filter(pred)));
    for i in 0..facts.len()
        invariant
            all == views(facts@),
            0 <= now <= i64::MAX - 719_528,
            min_age is Some ==> forall|k: int|
                0 <= k < all.len() && is_wanted(#[trigger] all[k], texts(wanted@)) ==> day_fits(
                    day_of_text(all[k].ts),
                ),
            age == (match min_age {
                Some(n) => Some(n as int),
                None => None,
            }),
            pred == is_listed(texts(wanted@), age, now as int),
            texts(list@) == full_lines(all.take(i as int).filter(pred)),
    {
        let ghost before = all.take(i as int).filter(pred);
        let ghost after = all.take(i + 1).filter(pred);
        assert(all.take(i + 1).drop_last() =~= all.take(i as int));
        proof {
            reveal(Seq::filter);
        }
        let f = &facts[i];
        assert(all[i as int] == f@);
        let listed = wanted_fact(f, &wanted) && match min_age {
            Some(n) => {
                proof {
                    lemma_text_day_bound(f.ts@);
                }
                now - days_from_ymd(&f.ts) >= n
            },
            None => true,
        };
        if listed {
            assert(after =~= before.push(f@));
            push_text(&mut list, render(f));
            assert(full_lines(after) =~= full_lines(before).push(full_line(f@)));
        } else {
            assert(after =~= before);
        }
    }
    assert(all.take(all.len() as int) =~= all);
    Ok(list)
}

// ---- what a listing holds ----

/// Without conditions every fact is listed.
pub proof fn law_plain_listing(facts: Seq<FactText>, now: int)
    ensures
        facts_listed(facts, Seq::empty(), None, now) == Ok::<Seq<Seq<char>>, Reason>(
            full_lines(facts),
        ),
{
    let none = Seq::<Seq<char>>::empty();
    assert(cleaned(none) =~= none);
    lemma_filter_whole(facts, is_listed(none, None, now));
}

proof fn lemma_filter_whole(facts: Seq<FactText>, p: spec_fn(FactText) -> bool)
    requires
        forall|i: int| 0 <= i < facts.len() ==> p(#[trigger] facts[i]),
    ensures
        facts.filter(p) == facts,
    decreases facts.len(),
{
    reveal(Seq::filter);
    if facts.len() > 0 {
        let shorter = facts.drop_last();
        assert(forall|i: int| 0 <= i < shorter.len() ==> #[trigger] shorter[i] == facts[i]);
        lemma_filter_whole(shorter, p);
        assert(p(facts[facts.len() - 1]));
    }
    assert(facts.filter(p) =~= facts);
}

/// The facts with the reserved tag are listed under it: these are the facts that a session leaves
/// out.
pub proof fn law_references_listed(facts: Seq<FactText>, now: int)
    ensures
        facts_listed(facts, seq!["ref"@], None, now) == Ok::<Seq<Seq<char>>, Reason>(
            full_lines(facts.filter(is_cold())),
        ),
{
    reveal_strlit("ref");
    let tags = seq!["ref"@];
    lemma_trimmed_is("ref"@);
    assert(tags.drop_last() =~= Seq::<Seq<char>>::empty());
    assert(cleaned(tags.drop_last()) =~= Seq::<Seq<char>>::empty());
    assert(cleaned(tags) =~= tags);
    let listed = is_listed(tags, None, now);
    assert forall|f: FactText| #[trigger] listed(f) == is_cold()(f) by {
        if is_reference(f) {
            let k = choose|k: int| 0 <= k < f.tags.len() && f.tags[k] == "ref"@;
            assert(tags[0] == f.tags[k]);
            assert(tags.contains(f.tags[k]));
        }
        if is_wanted(f, tags) {
            let k = choose|k: int| 0 <= k < f.tags.len() && tags.contains(#[trigger] f.tags[k]);
            assert(f.tags[k] == "ref"@);
        }
    }
    assert(listed =~= is_cold());
}

/// A fact whose date cannot be read counts as old: it is listed for every age up to the number of
/// days since 1970.
pub proof fn law_unreadable_date_is_old(f: FactText, n: int, now: int)
    requires
        integers_in(pieces(f.ts, Separator::Is('-'))).len() != 3,
        n <= now,
    ensures
        is_old(f, Some(n), now),
{
}

} // verus!
