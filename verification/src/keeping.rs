//! What every command that changes the facts keeps.

use vstd::prelude::*;

use crate::commands::{
    facts_dropped, facts_edited, has_other_id, new_fact, new_fact_checked, ChangeText,
};
use crate::fact::{
    all_sound, cleaned, ids_differ, is_sound, law_clean_tags, lemma_position, position_of, FactText,
};
use crate::form::{law_one_line_empty, law_one_line_form, law_one_line_length};
use crate::id::{free_id, is_taken, law_free_id, seed_of};
use crate::refusal::Reason;
use crate::sheet::{
    body_split, fact_from_line, fact_from_new_line, fact_lines, fields_of, head_split, latest,
    line_merged, line_parsed, lines_merged, lines_parsed, sheet_merged, tags_in, with_fresh, Merge,
    SheetText,
};

verus! {

// ---- add ----

/// A new fact is stored as facts are: it has an id of its own, its text and check are on one line
/// and not both empty, its tags are clean, and its text is within the limit.
pub proof fn law_added_fact(
    facts: Seq<FactText>,
    text: Seq<char>,
    check: Seq<char>,
    tags: Seq<Seq<char>>,
    today: Seq<char>,
    seed: u64,
    limit: nat,
)
    requires
        new_fact_checked(text, check, limit) is Ok,
    ensures
        ({
            let f = new_fact(facts, text, check, tags, today, seed);
            &&& is_sound(f)
            &&& f.text.len() <= limit
            &&& !is_taken(facts, f.id)
            &&& ids_differ(facts) ==> ids_differ(facts.push(f))
            &&& all_sound(facts) ==> all_sound(facts.push(f))
        }),
{
    let f = new_fact(facts, text, check, tags, today, seed);
    law_free_id(facts, seed);
    law_one_line_form(text);
    law_one_line_form(check);
    law_one_line_empty(text);
    law_one_line_empty(check);
    law_one_line_length(text);
    law_clean_tags(tags);
    law_clean_tags(cleaned(tags));
    lemma_ids_push(facts, f);
}

proof fn lemma_ids_push(facts: Seq<FactText>, f: FactText)
    requires
        !is_taken(facts, f.id),
    ensures
        ids_differ(facts) ==> ids_differ(facts.push(f)),
{
    let more = facts.push(f);
    if ids_differ(facts) {
        assert forall|i: int, j: int|
            0 <= i < more.len() && 0 <= j < more.len() && i != j implies (#[trigger] more[i]).id
            != (#[trigger] more[j]).id by {
            if i == facts.len() {
                assert(facts[j].id != f.id);
            } else if j == facts.len() {
                assert(facts[i].id != f.id);
            } else {
                assert(facts[i].id != facts[j].id);
            }
        }
    }
}

// ---- edit ----

/// An edit changes one fact, keeps all ids and leaves the other facts as they are. The date of the
/// fact becomes today's if a text or a check is given, and stays if only tags are.
pub proof fn law_edited_facts(
    facts: Seq<FactText>,
    id: Seq<char>,
    c: ChangeText,
    limit: nat,
    today: Seq<char>,
)
    requires
        facts_edited(facts, id, c, limit, today) is Ok,
    ensures
        ({
            let (after, f) = facts_edited(facts, id, c, limit, today)->Ok_0;
            &&& after.len() == facts.len()
            &&& forall|i: int| 0 <= i < facts.len() ==> (#[trigger] after[i]).id == facts[i].id
            &&& exists|k: int|
                #![trigger facts[k]]
                0 <= k < facts.len() && facts[k].id == id && after[k] == f && (c.text is None
                    && c.check is None ==> f.ts == facts[k].ts) && (c.text is Some
                    || c.check is Some ==> f.ts == today) && forall|i: int|
                    0 <= i < facts.len() && i != k ==> #[trigger] after[i] == facts[i]
            &&& c.text is Some ==> f.text.len() <= limit
            &&& ids_differ(facts) ==> ids_differ(after)
            &&& all_sound(facts) ==> all_sound(after)
        }),
{
    let (after, f) = facts_edited(facts, id, c, limit, today)->Ok_0;
    lemma_position(facts, id);
    let k = position_of(facts, id)->Some_0;
    assert(facts[k].id == id);
    if let Some(t) = c.text {
        law_one_line_form(t);
        law_one_line_length(t);
    }
    if let Some(t) = c.check {
        law_one_line_form(t);
    }
    if let Some(t) = c.tags {
        law_clean_tags(t);
    }
    if ids_differ(facts) {
        assert forall|i: int, j: int|
            0 <= i < after.len() && 0 <= j < after.len() && i != j implies (#[trigger] after[i]).id
            != (#[trigger] after[j]).id by {
            assert(facts[i].id != facts[j].id);
        }
    }
    if all_sound(facts) {
        assert forall|i: int| 0 <= i < after.len() implies is_sound(#[trigger] after[i]) by {
            assert(is_sound(facts[i]));
        }
    }
}

// ---- drop ----

proof fn lemma_filter_ids(facts: Seq<FactText>, id: Seq<char>)
    ensures
        ids_differ(facts) ==> ids_differ(facts.filter(has_other_id(id))),
        forall|f: FactText| #[trigger]
            facts.filter(has_other_id(id)).contains(f) <==> facts.contains(f) && f.id != id,
    decreases facts.len(),
{
    let rest = facts.filter(has_other_id(id));
    assert forall|f: FactText| #[trigger] rest.contains(f) <==> facts.contains(f) && f.id != id by {
        if rest.contains(f) {
            facts.lemma_filter_contains_rev(has_other_id(id), f);
            let k = choose|k: int| 0 <= k < rest.len() && rest[k] == f;
            facts.lemma_filter_pred(has_other_id(id), k);
        }
        if facts.contains(f) && f.id != id {
            let k = choose|k: int| 0 <= k < facts.len() && facts[k] == f;
            facts.lemma_filter_contains(has_other_id(id), k);
        }
    }
    if ids_differ(facts) && facts.len() > 0 {
        reveal(Seq::filter);
        let shorter = facts.drop_last();
        assert(forall|i: int| 0 <= i < shorter.len() ==> #[trigger] shorter[i] == facts[i]);
        lemma_filter_ids(shorter, id);
        let inner = shorter.filter(has_other_id(id));
        if facts.last().id != id {
            if is_taken(inner, facts.last().id) {
                let k = choose|k: int|
                    0 <= k < inner.len() && #[trigger] inner[k].id == facts.last().id;
                assert(inner.contains(inner[k]));
                let j = choose|j: int| 0 <= j < shorter.len() && shorter[j] == inner[k];
                assert(facts[j].id != facts[facts.len() - 1].id);
            }
            lemma_ids_push(inner, facts.last());
        }
    }
}

/// A drop takes away the facts with the given id and no others; it is refused exactly if there is
/// none.
pub proof fn law_dropped_facts(facts: Seq<FactText>, id: Seq<char>)
    ensures
        facts_dropped(facts, id) is Err <==> !is_taken(facts, id),
        match facts_dropped(facts, id) {
            Ok(rest) => {
                &&& !is_taken(rest, id)
                &&& forall|f: FactText| #[trigger]
                    rest.contains(f) <==> facts.contains(f) && f.id != id
                &&& ids_differ(facts) ==> ids_differ(rest)
                &&& all_sound(facts) ==> all_sound(rest)
            },
            Err(reason) => reason == Reason::NoFact { id },
        },
{
    let rest = facts.filter(has_other_id(id));
    lemma_filter_ids(facts, id);
    if is_taken(facts, id) {
        lemma_filter_shorter(facts, id);
    } else {
        lemma_filter_all(facts, id);
    }
    if is_taken(rest, id) {
        let k = choose|k: int| 0 <= k < rest.len() && #[trigger] rest[k].id == id;
        assert(rest.contains(rest[k]));
    }
    if all_sound(facts) {
        assert forall|i: int| 0 <= i < rest.len() implies is_sound(#[trigger] rest[i]) by {
            assert(rest.contains(rest[i]));
            let k = choose|k: int| 0 <= k < facts.len() && facts[k] == rest[i];
            assert(is_sound(facts[k]));
        }
    }
}

proof fn lemma_filter_all(facts: Seq<FactText>, id: Seq<char>)
    requires
        !is_taken(facts, id),
    ensures
        facts.filter(has_other_id(id)) == facts,
    decreases facts.len(),
{
    reveal(Seq::filter);
    if facts.len() > 0 {
        let shorter = facts.drop_last();
        assert(forall|i: int| 0 <= i < shorter.len() ==> #[trigger] shorter[i] == facts[i]);
        lemma_filter_all(shorter, id);
        assert(facts[facts.len() - 1].id != id);
    }
    assert(facts.filter(has_other_id(id)) =~= facts);
}

proof fn lemma_filter_shorter(facts: Seq<FactText>, id: Seq<char>)
    requires
        is_taken(facts, id),
    ensures
        facts.filter(has_other_id(id)).len() < facts.len(),
    decreases facts.len(),
{
    reveal(Seq::filter);
    let shorter = facts.drop_last();
    shorter.lemma_filter_len(has_other_id(id));
    let k = choose|k: int| 0 <= k < facts.len() && #[trigger] facts[k].id == id;
    if k < shorter.len() {
        assert(shorter[k].id == id);
        lemma_filter_shorter(shorter, id);
    }
}

/// To drop a fact that was just added gives the facts from before.
pub proof fn law_drop_undoes_add(facts: Seq<FactText>, f: FactText)
    requires
        !is_taken(facts, f.id),
    ensures
        facts_dropped(facts.push(f), f.id) == Ok::<Seq<FactText>, Reason>(facts),
{
    reveal(Seq::filter);
    lemma_filter_all(facts, f.id);
    assert(facts.push(f).drop_last() =~= facts);
}

// ---- the sheet ----

/// Whether what a line says is in the form in which facts are stored.
pub open spec fn is_sound_line(line: SheetText) -> bool {
    is_sound(fact_from_new_line(line, Seq::empty(), Seq::empty())) || (line.text.len() == 0
        && line.check.len() == 0)
}

proof fn lemma_line_sound(line: Seq<char>)
    ensures
        line_parsed(line) matches Ok(l) ==> is_sound_line(l),
{
    if let Ok(l) = line_parsed(line) {
        let fields = fields_of(line);
        let (id, body) = head_split(fields[0]);
        let (text, check) = body_split(body);
        law_one_line_form(text);
        law_one_line_form(check);
        law_clean_tags(tags_in(fields.drop_first())->Some_0);
    }
}

proof fn lemma_lines_sound(list: Seq<Seq<char>>)
    ensures
        lines_parsed(list) matches Ok(parsed) ==> forall|i: int|
            0 <= i < parsed.len() ==> is_sound_line(#[trigger] parsed[i]),
    decreases list.len(),
{
    if list.len() > 0 {
        lemma_lines_sound(list.drop_last());
        lemma_line_sound(list.last());
    }
}

/// Whether a fact is one of the given facts as a sheet has it: with today's date if text or check
/// differ, and with its own date if they do not.
pub open spec fn comes_from(g: FactText, facts: Seq<FactText>, today: Seq<char>) -> bool {
    exists|k: int|
        0 <= k < facts.len() && (#[trigger] facts[k]).id == g.id && g.ts == if facts[k].text
            == g.text && facts[k].check == g.check {
            facts[k].ts
        } else {
            today
        }
}

/// Whether a sheet has been taken in properly so far: the kept facts are as facts are stored, no
/// two of the facts have one id, and new facts are within the limit.
spec fn is_merge(m: Merge, start: Seq<FactText>, today: Seq<char>, limit: nat) -> bool {
    &&& ids_differ(m.left + m.kept)
    &&& (m.left + m.kept).len() == start.len()
    &&& forall|i: int| 0 <= i < m.left.len() ==> start.contains(#[trigger] m.left[i])
    &&& forall|i: int| 0 <= i < m.kept.len() ==> comes_from(#[trigger] m.kept[i], start, today)
    &&& all_sound(m.kept)
    &&& m.edited <= m.kept.len()
    &&& forall|i: int|
        0 <= i < m.fresh.len() ==> is_sound(
            fact_from_new_line(#[trigger] m.fresh[i], Seq::empty(), Seq::empty()),
        ) && m.fresh[i].text.len() <= limit
}

proof fn lemma_taken_push(facts: Seq<FactText>, f: FactText, id: Seq<char>)
    ensures
        is_taken(facts.push(f), id) <==> is_taken(facts, id) || id == f.id,
{
    let more = facts.push(f);
    if is_taken(more, id) {
        let k = choose|k: int| 0 <= k < more.len() && #[trigger] more[k].id == id;
        if k < facts.len() {
            assert(facts[k].id == id);
        }
    }
    if is_taken(facts, id) {
        let k = choose|k: int| 0 <= k < facts.len() && #[trigger] facts[k].id == id;
        assert(more[k].id == id);
    }
    assert(more[facts.len() as int].id == f.id);
}

proof fn lemma_ids_without(facts: Seq<FactText>, i: int)
    requires
        ids_differ(facts),
        0 <= i < facts.len(),
    ensures
        ids_differ(facts.remove(i)),
{
    let rest = facts.remove(i);
    assert forall|a: int, b: int|
        0 <= a < rest.len() && 0 <= b < rest.len() && a != b implies (#[trigger] rest[a]).id != (
    #[trigger] rest[b]).id by {
        let c = if a < i {
            a
        } else {
            a + 1
        };
        let d = if b < i {
            b
        } else {
            b + 1
        };
        assert(facts[c].id != facts[d].id);
    }
}

proof fn lemma_taken_without(facts: Seq<FactText>, i: int, id: Seq<char>)
    requires
        ids_differ(facts),
        0 <= i < facts.len(),
    ensures
        is_taken(facts.remove(i), id) <==> is_taken(facts, id) && id != facts[i].id,
{
    let rest = facts.remove(i);
    if is_taken(rest, id) {
        let a = choose|a: int| 0 <= a < rest.len() && #[trigger] rest[a].id == id;
        let c = if a < i {
            a
        } else {
            a + 1
        };
        assert(facts[c].id == id);
        assert(facts[c].id != facts[i].id);
    }
    if is_taken(facts, id) && id != facts[i].id {
        let c = choose|c: int| 0 <= c < facts.len() && #[trigger] facts[c].id == id;
        let a = if c < i {
            c
        } else {
            c - 1
        };
        assert(rest[a].id == id);
    }
}

pub proof fn lemma_latest(facts: Seq<FactText>)
    ensures
        ids_differ(latest(facts)),
        forall|id: Seq<char>| #[trigger] is_taken(latest(facts), id) <==> is_taken(facts, id),
    decreases facts.len(),
{
    if facts.len() > 0 {
        let shorter = facts.drop_last();
        let f = facts.last();
        let before = latest(shorter);
        lemma_latest(shorter);
        lemma_position(before, f.id);
        let rest = match position_of(before, f.id) {
            Some(i) => before.remove(i),
            None => before,
        };
        if let Some(i) = position_of(before, f.id) {
            lemma_ids_without(before, i);
            lemma_taken_without(before, i, f.id);
        }
        lemma_ids_push(rest, f);
        assert(shorter.push(f) =~= facts);
        assert forall|id: Seq<char>| #[trigger] is_taken(latest(facts), id) <==> is_taken(
            facts,
            id,
        ) by {
            lemma_taken_push(rest, f, id);
            lemma_taken_push(shorter, f, id);
            if let Some(i) = position_of(before, f.id) {
                lemma_taken_without(before, i, id);
            }
        }
    }
}

proof fn lemma_line_keeps(
    m: Merge,
    line: SheetText,
    today: Seq<char>,
    limit: nat,
    start: Seq<FactText>,
)
    requires
        is_merge(m, start, today, limit),
        is_sound_line(line),
    ensures
        line_merged(m, line, today, limit) matches Ok(n) ==> is_merge(n, start, today, limit),
{
    if let Ok(n) = line_merged(m, line, today, limit) {
        match line.id {
            None => {
                assert forall|i: int| 0 <= i < n.fresh.len() implies is_sound(
                    fact_from_new_line(#[trigger] n.fresh[i], Seq::empty(), Seq::empty()),
                ) && n.fresh[i].text.len() <= limit by {
                    if i < m.fresh.len() {
                        assert(n.fresh[i] == m.fresh[i]);
                    }
                }
            },
            Some(id) => {
                lemma_position(m.left, id);
                let i = position_of(m.left, id)->Some_0;
                let f = m.left[i];
                let g = fact_from_line(f, line, today);
                let before = m.left + m.kept;
                let after = n.left + n.kept;
                assert(n.kept == m.kept.push(g));
                assert(after.len() == before.len());
                assert forall|a: int, b: int|
                    0 <= a < after.len() && 0 <= b < after.len() && a != b implies (
                #[trigger] after[a]).id != (#[trigger] after[b]).id by {
                    let c = if a < i {
                        a
                    } else if a < after.len() - 1 {
                        a + 1
                    } else {
                        i
                    };
                    let d = if b < i {
                        b
                    } else if b < after.len() - 1 {
                        b + 1
                    } else {
                        i
                    };
                    assert(after[a].id == before[c].id);
                    assert(after[b].id == before[d].id);
                    assert(before[c].id != before[d].id);
                }
                assert(is_sound(g));
                assert(start.contains(f));
                let k = choose|k: int| 0 <= k < start.len() && start[k] == f;
                assert(start[k].id == g.id);
                assert(comes_from(g, start, today));
                assert forall|a: int| 0 <= a < n.kept.len() implies is_sound(#[trigger] n.kept[a])
                    && comes_from(n.kept[a], start, today) by {
                    if a < m.kept.len() {
                        assert(is_sound(m.kept[a]));
                    }
                }
                assert forall|a: int| 0 <= a < n.left.len() implies start.contains(
                    #[trigger] n.left[a],
                ) by {
                    assert(n.left[a] == m.left[if a < i {
                        a
                    } else {
                        a + 1
                    }]);
                }
            },
        }
    }
}

proof fn lemma_lines_keep(
    facts: Seq<FactText>,
    list: Seq<SheetText>,
    today: Seq<char>,
    limit: nat,
)
    requires
        forall|i: int| 0 <= i < list.len() ==> is_sound_line(#[trigger] list[i]),
    ensures
        lines_merged(facts, list, today, limit) matches Ok(m) ==> is_merge(
            m,
            latest(facts),
            today,
            limit,
        ),
    decreases list.len(),
{
    if list.len() == 0 {
        lemma_latest(facts);
        let start = latest(facts);
        assert(start + Seq::<FactText>::empty() =~= start);
        assert(forall|i: int| 0 <= i < start.len() ==> start.contains(#[trigger] start[i]));
    } else {
        let shorter = list.drop_last();
        assert(forall|i: int| 0 <= i < shorter.len() ==> #[trigger] shorter[i] == list[i]);
        lemma_lines_keep(facts, shorter, today, limit);
        if let Ok(m) = lines_merged(facts, shorter, today, limit) {
            assert(is_sound_line(list[list.len() - 1]));
            lemma_line_keeps(m, list.last(), today, limit, latest(facts));
        }
    }
}

proof fn lemma_fresh_keeps(
    kept: Seq<FactText>,
    fresh: Seq<SheetText>,
    today: Seq<char>,
    nanos: Seq<u64>,
    process: u32,
)
    requires
        ids_differ(kept),
        all_sound(kept),
        forall|i: int|
            0 <= i < fresh.len() ==> is_sound(
                fact_from_new_line(#[trigger] fresh[i], Seq::empty(), Seq::empty()),
            ),
    ensures
        ids_differ(with_fresh(kept, fresh, today, nanos, process)),
        all_sound(with_fresh(kept, fresh, today, nanos, process)),
        with_fresh(kept, fresh, today, nanos, process).len() == kept.len() + fresh.len(),
        with_fresh(kept, fresh, today, nanos, process).take(kept.len() as int) == kept,
    decreases fresh.len(),
{
    if fresh.len() == 0 {
        assert(kept.take(kept.len() as int) =~= kept);
    } else {
        let shorter = fresh.drop_last();
        assert(forall|i: int| 0 <= i < shorter.len() ==> #[trigger] shorter[i] == fresh[i]);
        lemma_fresh_keeps(kept, shorter, today, nanos, process);
        let before = with_fresh(kept, shorter, today, nanos, process);
        let seed = seed_of(nanos[fresh.len() - 1], process);
        law_free_id(before, seed);
        let f = fact_from_new_line(fresh.last(), free_id(before, seed), today);
        let base = fresh[fresh.len() - 1];
        assert(is_sound(fact_from_new_line(base, Seq::empty(), Seq::empty())));
        assert(is_sound(f));
        lemma_ids_push(before, f);
        assert(before.push(f).take(kept.len() as int) =~= before.take(kept.len() as int));
    }
}

/// A sheet that is taken in leaves facts as they are stored, each with an id of its own: those
/// that it keeps, and behind them its new ones, whose texts are within the limit. Every kept fact
/// comes from a fact with its id, and has a new date exactly if its text or check is new. What the
/// sheet drops were facts, and what it keeps and what it drops are together as many as there were
/// ids.
pub proof fn law_sheet_taken_in(
    facts: Seq<FactText>,
    sheet: Seq<char>,
    today: Seq<char>,
    limit: nat,
    nanos: Seq<u64>,
    process: u32,
)
    ensures
        sheet_merged(facts, sheet, today, limit) matches Ok(m) ==> {
            let after = with_fresh(m.kept, m.fresh, today, nanos, process);
            &&& ids_differ(after)
            &&& all_sound(after)
            &&& after.take(m.kept.len() as int) == m.kept
            &&& after.len() == m.kept.len() + m.fresh.len()
            &&& m.left.len() + m.kept.len() == latest(facts).len()
            &&& forall|i: int|
                0 <= i < m.left.len() ==> latest(facts).contains(#[trigger] m.left[i])
            &&& forall|i: int|
                0 <= i < m.kept.len() ==> comes_from(#[trigger] m.kept[i], latest(facts), today)
            &&& m.edited <= m.kept.len()
            &&& forall|i: int|
                0 <= i < m.fresh.len() ==> (#[trigger] m.fresh[i]).text.len() <= limit
        },
{
    let list = fact_lines(sheet);
    lemma_lines_sound(list);
    if let Ok(parsed) = lines_parsed(list) {
        lemma_lines_keep(facts, parsed, today, limit);
        if let Ok(m) = sheet_merged(facts, sheet, today, limit) {
            let all = m.left + m.kept;
            assert(ids_differ(m.kept)) by {
                assert forall|i: int, j: int|
                    0 <= i < m.kept.len() && 0 <= j < m.kept.len() && i != j implies (
                #[trigger] m.kept[i]).id != (#[trigger] m.kept[j]).id by {
                    assert(all[m.left.len() + i].id != all[m.left.len() + j].id);
                }
            }
            assert forall|i: int| 0 <= i < m.fresh.len() implies is_sound(
                fact_from_new_line(#[trigger] m.fresh[i], Seq::empty(), Seq::empty()),
            ) by {}
            lemma_fresh_keeps(m.kept, m.fresh, today, nanos, process);
        }
    }
}

} // verus!
