//! What the user is shown: the lines of facts, of the session, of searches and of listings.

use vstd::prelude::*;

use crate::config::{problem_text, Settings};
use crate::fact::{
    bare_line, full_line, group_name, not_ref, FactText,
};
use crate::form::lemma_joined_add;
use crate::number::decimal;
use crate::projects::{
    alive_stores, gone_lines, last_date, project_lines, projects_listed, EntryText,
};
use crate::rank::{ranking, score_of, Score};
use crate::refusal::Reason;
use crate::report::{
    dedup_lines, found, law_near_pairs, long_lines, near_pairs, over_limit, pair_lines, rows,
    LineText,
};
use crate::session::{
    bare_lines, instruction_lines, is_cold, is_hot, session_lines, INJECT_RULES,
};
use crate::tally::{count_texts, not_ref_count, ref_note, tags_of, tally};
use crate::text::joined;
use crate::words::{fact_words, tokens};

verus! {

// ---- facts ----

/// A list of texts with a separator between neighbours: one text is itself, and two lists that are
/// not empty have the separator between them.
pub proof fn law_joined(a: Seq<Seq<char>>, b: Seq<Seq<char>>, s: Seq<char>, sep: Seq<char>)
    ensures
        joined(Seq::empty(), sep) == Seq::<char>::empty(),
        joined(seq![s], sep) == s,
        a.len() > 0 && b.len() > 0 ==> joined(a + b, sep) == joined(a, sep) + sep + joined(b, sep),
{
    if a.len() > 0 && b.len() > 0 {
        lemma_joined_add(a, b, sep);
    }
}

/// The short line of a fact: its id in square brackets, and then its text, its check behind a mark,
/// or both with the mark between them.
pub proof fn law_short_line(f: FactText)
    ensures
        f.check.len() == 0 ==> bare_line(f) == "["@ + f.id + "] "@ + f.text,
        f.check.len() > 0 && f.text.len() == 0 ==> bare_line(f) == "["@ + f.id + "] "@
            + "check: "@ + f.check,
        f.check.len() > 0 && f.text.len() > 0 ==> bare_line(f) == "["@ + f.id + "] "@ + f.text
            + " | check: "@ + f.check,
{
    if f.check.len() > 0 && f.text.len() == 0 {
        assert(bare_line(f) =~= "["@ + f.id + "] "@ + "check: "@ + f.check);
    } else if f.check.len() > 0 {
        assert(bare_line(f) =~= "["@ + f.id + "] "@ + f.text + " | check: "@ + f.check);
    }
}

/// The long line of a fact: the short one, and then, each behind two spaces, the tags, each behind a
/// `#`, and the date in round brackets.
pub proof fn law_long_line(f: FactText)
    ensures
        f.tags.len() == 0 ==> full_line(f) == bare_line(f) + "  ("@ + f.ts + ")"@,
        f.tags.len() > 0 ==> full_line(f) == bare_line(f) + "  #"@ + joined(f.tags, " #"@) + "  ("@
            + f.ts + ")"@,
{
    if f.tags.len() == 0 {
        assert(full_line(f) =~= bare_line(f) + "  ("@ + f.ts + ")"@);
    } else {
        assert(full_line(f) =~= bare_line(f) + "  #"@ + joined(f.tags, " #"@) + "  ("@ + f.ts
            + ")"@);
    }
}

/// The tag under which a fact is grouped: the first one but `ref`; without such a tag, nothing for
/// a reference fact and `(untagged)` for a fact without tags.
pub proof fn law_group_tag(f: FactText, i: int)
    ensures
        0 <= i < f.tags.len() && f.tags[i] != "ref"@ && (forall|j: int|
            0 <= j < i ==> #[trigger] f.tags[j] == "ref"@) ==> group_name(f) == f.tags[i],
        f.tags.len() > 0 && (forall|j: int|
            0 <= j < f.tags.len() ==> #[trigger] f.tags[j] == "ref"@) ==> group_name(f).len() == 0,
        f.tags.len() == 0 ==> group_name(f) == "(untagged)"@,
{
    let tags = f.tags;
    reveal(Seq::filter);
    if forall|j: int| 0 <= j < tags.len() ==> #[trigger] tags[j] == "ref"@ {
        assert(tags.filter(not_ref()).len() == 0) by {
            let rest = tags.filter(not_ref());
            if rest.len() > 0 {
                assert(rest.contains(rest[0]));
                tags.lemma_filter_pred(not_ref(), 0);
                tags.lemma_filter_contains_rev(not_ref(), rest[0]);
                let j = choose|j: int| 0 <= j < tags.len() && tags[j] == rest[0];
                assert(tags[j] == "ref"@);
            }
        }
        if tags.len() > 0 {
            assert(tags[0] == "ref"@);
            assert(tags.contains("ref"@));
        } else {
            assert(!tags.contains("ref"@));
        }
    }
    if 0 <= i < tags.len() && tags[i] != "ref"@ && (forall|j: int|
        0 <= j < i ==> #[trigger] tags[j] == "ref"@) {
        let front = tags.take(i);
        let rest = tags.skip(i);
        assert(front + rest =~= tags);
        Seq::filter_distributes_over_add(front, rest, not_ref());
        assert(front.filter(not_ref()).len() == 0) by {
            let kept = front.filter(not_ref());
            if kept.len() > 0 {
                assert(kept.contains(kept[0]));
                front.lemma_filter_pred(not_ref(), 0);
                front.lemma_filter_contains_rev(not_ref(), kept[0]);
                let j = choose|j: int| 0 <= j < front.len() && front[j] == kept[0];
                assert(tags[j] == "ref"@);
            }
        }
        let one = seq![tags[i]];
        let more = rest.drop_first();
        assert(one + more =~= rest);
        Seq::filter_distributes_over_add(one, more, not_ref());
        assert(one.drop_last() =~= Seq::<Seq<char>>::empty());
        assert(one.drop_last().filter(not_ref()) =~= Seq::<Seq<char>>::empty());
        assert(one.filter(not_ref()) =~= one);
        assert(tags.filter(not_ref())[0] == tags[i]);
    }
}

// ---- the session ----

/// The lines of the user: none without instructions, else a rule and the instructions, or a rule
/// and what keeps them away.
pub proof fn law_instruction_lines(s: Settings)
    ensures
        match s.user_instructions {
            Ok(text) => if text.len() == 0 {
                instruction_lines(s).len() == 0
            } else {
                instruction_lines(s) == seq!["---"@, text]
            },
            Err(problem) => {
                &&& instruction_lines(s).len() == 2
                &&& instruction_lines(s)[0] == "---"@
                &&& instruction_lines(s)[1] == "factsheet: config.toml: "@ + problem_text(problem)
                    + ". User instructions were not injected. Tell the user to check the global factsheet/config.toml: use user_instructions = \"text\" or triple quotes for multiple lines; escape double quotes and backslashes in basic strings, or use literal single-quoted strings."@
            },
        },
{
}

/// The note on the reference facts: how often their other tags occur, or, where there are none, how
/// many they are.
pub proof fn law_reference_note(refs: Seq<FactText>)
    ensures
        ({
            let counts = tally(tags_of(refs)).filter(|c: (Seq<char>, nat)| c.0 != "ref"@);
            &&& counts.len() == 0 ==> ref_note(refs) == "ref: "@ + decimal(refs.len())
                + " facts, pull with `factsheet ls -t ref`"@
            &&& counts.len() > 0 ==> ref_note(refs) == "ref: pull with `factsheet ls -t <tag>` | "@
                + joined(
                counts.map_values(|c: (Seq<char>, nat)| "#"@ + c.0 + " "@ + decimal(c.1)),
                " "@,
            )
        }),
{
    let p = |c: (Seq<char>, nat)| c.0 != "ref"@;
    assert(p =~= not_ref_count());
    let counts = tally(tags_of(refs)).filter(p);
    assert(count_texts(counts) =~= counts.map_values(
        |c: (Seq<char>, nat)| "#"@ + c.0 + " "@ + decimal(c.1),
    ));
}

/// The tags are listed one per line, each behind a `#` and followed by its count.
pub proof fn law_tag_lines(tags: Seq<Seq<char>>)
    ensures
        count_texts(tally(tags)).len() == tally(tags).len(),
        forall|i: int|
            0 <= i < tally(tags).len() ==> #[trigger] count_texts(tally(tags))[i] == "#"@ + tally(
                tags,
            )[i].0 + " "@ + decimal(tally(tags)[i].1),
{
}

/// What a session shows, line by line: how many facts there are; every fact without the reserved
/// tag, in order, with its id, its text and its check; the rules; a note if there are facts with the
/// reserved tag; a warning if there are more facts than the user allows; and the lines of the user.
pub proof fn law_session(facts: Seq<FactText>, s: Settings)
    requires
        facts.len() > 0,
    ensures
        ({
            let hot = facts.filter(|f: FactText| !f.tags.contains("ref"@));
            let refs = facts.filter(|f: FactText| f.tags.contains("ref"@));
            let list = session_lines(facts, s);
            let h = hot.len() as int;
            let note = if refs.len() == 0 {
                0int
            } else {
                1int
            };
            let warning = if hot.len() > s.hot_warn {
                1int
            } else {
                0int
            };
            &&& list.len() == 3 + h + note + warning + instruction_lines(s).len()
            &&& refs.len() == 0 ==> list[0] == "## Project memory ("@ + decimal(facts.len()) + ")"@
            &&& refs.len() > 0 ==> list[0] == "## Project memory ("@ + decimal(hot.len()) + " + "@
                + decimal(refs.len()) + " ref)"@
            &&& forall|i: int|
                0 <= i < h ==> {
                    let f = #[trigger] hot[i];
                    &&& f.check.len() == 0 ==> list[1 + i] == "["@ + f.id + "] "@ + f.text
                    &&& f.check.len() > 0 && f.text.len() == 0 ==> list[1 + i] == "["@ + f.id
                        + "] "@ + "check: "@ + f.check
                    &&& f.check.len() > 0 && f.text.len() > 0 ==> list[1 + i] == "["@ + f.id
                        + "] "@ + f.text + " | check: "@ + f.check
                }
            &&& list[1 + h] == "---"@
            &&& list[2 + h] == INJECT_RULES@
            &&& note == 1 ==> list[3 + h] == ref_note(refs)
            &&& warning == 1 ==> list[3 + h + note] == "hot: "@ + decimal(hot.len()) + " > "@
                + decimal(s.hot_warn) + " -> curate: merge dups, drop dead, demote lookups to ref"@
            &&& list.skip(3 + h + note + warning) == instruction_lines(s)
        }),
{
    let is_plain = |f: FactText| !f.tags.contains("ref"@);
    let is_reserved = |f: FactText| f.tags.contains("ref"@);
    assert(is_plain =~= is_hot());
    assert(is_reserved =~= is_cold());
    let hot = facts.filter(is_plain);
    let refs = facts.filter(is_reserved);
    let list = session_lines(facts, s);
    let h = hot.len() as int;
    lemma_parts(facts);
    assert forall|i: int| 0 <= i < h implies list[1 + i] == bare_line(#[trigger] hot[i]) by {
        assert(bare_lines(hot)[i] == bare_line(hot[i]));
    }
    assert forall|i: int| 0 <= i < h implies {
        let f = #[trigger] hot[i];
        &&& f.check.len() == 0 ==> list[1 + i] == "["@ + f.id + "] "@ + f.text
        &&& f.check.len() > 0 && f.text.len() == 0 ==> list[1 + i] == "["@ + f.id + "] "@
            + "check: "@ + f.check
        &&& f.check.len() > 0 && f.text.len() > 0 ==> list[1 + i] == "["@ + f.id + "] "@ + f.text
            + " | check: "@ + f.check
    } by {
        law_short_line(hot[i]);
    }
    let note = if refs.len() == 0 {
        0int
    } else {
        1int
    };
    let warning = if hot.len() > s.hot_warn {
        1int
    } else {
        0int
    };
    assert(list.skip(3 + h + note + warning) =~= instruction_lines(s));
}

/// Every fact either has the reserved tag or does not.
proof fn lemma_parts(facts: Seq<FactText>)
    ensures
        facts.filter(is_hot()).len() + facts.filter(is_cold()).len() == facts.len(),
    decreases facts.len(),
{
    reveal(Seq::filter);
    if facts.len() > 0 {
        lemma_parts(facts.drop_last());
    }
}

/// A session without facts shows the rules and the lines of the user.
pub proof fn law_empty_session(facts: Seq<FactText>, s: Settings)
    requires
        facts.len() == 0,
    ensures
        session_lines(facts, s) == seq!["## Project memory (empty)"@, INJECT_RULES@]
            + instruction_lines(s),
{
}

// ---- searches ----

/// What a search shows, line by line: for every one of the five best hits its overlap and, behind a
/// space, the long line of the fact; one line where there is no hit; and a refusal where the query
/// has no word.
pub proof fn law_search(facts: Seq<FactText>, query: Seq<char>)
    ensures
        ({
            let hits = ranking(facts, tokens(query));
            let n = if hits.len() <= 5 {
                hits.len() as int
            } else {
                5
            };
            match found(facts, query) {
                Err(e) => tokens(query).len() == 0 && e == Reason::EmptyQuery,
                Ok(lines) => {
                    &&& tokens(query).len() > 0
                    &&& hits.len() == 0 ==> lines == seq![LineText::Text("no matches"@)]
                    &&& hits.len() > 0 ==> lines.len() == n && forall|i: int|
                        0 <= i < n ==> #[trigger] lines[i] == LineText::Scored(
                            hits[i].0,
                            " "@ + full_line(facts[hits[i].1 as int]),
                        )
                },
            }
        }),
{
}

/// The three lines of a pair of near-duplicates.
pub open spec fn is_pair_at(
    list: Seq<LineText>,
    p: int,
    score: Score,
    f: FactText,
    g: FactText,
) -> bool {
    &&& 0 <= p && p + 3 <= list.len()
    &&& list[p] == LineText::Scored(score, Seq::empty())
    &&& list[p + 1] == LineText::Text("  "@ + full_line(f))
    &&& list[p + 2] == LineText::Text("  "@ + full_line(g))
}

proof fn lemma_pair_lines(facts: Seq<FactText>, pairs: Seq<(Score, (usize, usize))>)
    ensures
        pair_lines(facts, pairs).len() == 3 * pairs.len(),
        forall|q: int|
            0 <= q < pairs.len() ==> is_pair_at(
                pair_lines(facts, pairs),
                3 * q,
                (#[trigger] pairs[q]).0,
                facts[pairs[q].1.0 as int],
                facts[pairs[q].1.1 as int],
            ),
    decreases pairs.len(),
{
    if pairs.len() > 0 {
        let shorter = pairs.drop_last();
        lemma_pair_lines(facts, shorter);
        let before = pair_lines(facts, shorter);
        let all = pair_lines(facts, pairs);
        assert forall|q: int| 0 <= q < pairs.len() implies is_pair_at(
            all,
            3 * q,
            (#[trigger] pairs[q]).0,
            facts[pairs[q].1.0 as int],
            facts[pairs[q].1.1 as int],
        ) by {
            if q < shorter.len() {
                assert(shorter[q] == pairs[q]);
                assert(is_pair_at(
                    before,
                    3 * q,
                    shorter[q].0,
                    facts[shorter[q].1.0 as int],
                    facts[shorter[q].1.1 as int],
                ));
                assert(all[3 * q] == before[3 * q]);
                assert(all[3 * q + 1] == before[3 * q + 1]);
                assert(all[3 * q + 2] == before[3 * q + 2]);
            }
        }
    }
}

/// The number of lines about facts that are too long: a heading and a line for each, if there are
/// any.
pub open spec fn long_count(facts: Seq<FactText>, limit: nat) -> int {
    let n = over_limit(facts, limit).len() as int;
    if n == 0 {
        0
    } else {
        n + 1
    }
}

/// What a look for duplicates shows, line by line. The facts over the limit come first, under a
/// heading. Behind them stand all pairs of near-duplicates, three lines each: the overlap, and the
/// long lines of the two facts; or one line that there is none.
pub proof fn law_duplicates_shown(facts: Seq<FactText>, limit: nat)
    ensures
        ({
            let long = over_limit(facts, limit);
            let pairs = near_pairs(facts, rows(facts.len() as int, facts.len() as int));
            let list = dedup_lines(facts, limit);
            let from = long_count(facts, limit);
            &&& long.len() > 0 ==> list[0] == LineText::Text(
                "over "@ + decimal(limit) + " chars ("@ + decimal(long.len())
                    + ") -> split each into atomic facts (`factsheet add` per rule, then `factsheet drop` the old id):"@,
            )
            &&& forall|i: int|
                0 <= i < long.len() ==> list[1 + i] == LineText::Text(
                    "  "@ + decimal((#[trigger] long[i]).0) + " chars "@ + full_line(
                        facts[long[i].1 as int],
                    ),
                )
            &&& pairs.len() == 0 ==> list.len() == from + 1 && list[from] == LineText::Text(
                "no near-duplicates (overlap >= 0.5)"@,
            )
            &&& pairs.len() > 0 ==> list.len() == from + 3 * pairs.len()
            &&& forall|q: int|
                0 <= q < pairs.len() ==> is_pair_at(
                    list,
                    from + 3 * q,
                    (#[trigger] pairs[q]).0,
                    facts[pairs[q].1.0 as int],
                    facts[pairs[q].1.1 as int],
                )
        }),
{
    let long = over_limit(facts, limit);
    let pairs = near_pairs(facts, rows(facts.len() as int, facts.len() as int));
    let list = dedup_lines(facts, limit);
    let from = long_count(facts, limit);
    let front = long_lines(facts, limit);
    assert(front.len() == from);
    lemma_pair_lines(facts, pairs);
    assert forall|q: int| 0 <= q < pairs.len() implies is_pair_at(
        list,
        from + 3 * q,
        (#[trigger] pairs[q]).0,
        facts[pairs[q].1.0 as int],
        facts[pairs[q].1.1 as int],
    ) by {
        let back = pair_lines(facts, pairs);
        assert(is_pair_at(
            back,
            3 * q,
            pairs[q].0,
            facts[pairs[q].1.0 as int],
            facts[pairs[q].1.1 as int],
        ));
        assert(list[from + 3 * q] == back[3 * q]);
        assert(list[from + 3 * q + 1] == back[3 * q + 1]);
        assert(list[from + 3 * q + 2] == back[3 * q + 2]);
    }
}

/// For every two facts whose overlap is one half or more, what is shown holds three neighbouring
/// lines with their overlap and the two facts, whatever the limit and whatever else is shown.
pub proof fn law_every_pair_shown(facts: Seq<FactText>, limit: nat, s: Score, a: usize, b: usize)
    requires
        facts.len() <= usize::MAX,
        a < b < facts.len(),
        s == score_of(
            fact_words(facts[a as int]),
            fact_words(facts[b as int]),
        ),
        2 * s.shared >= s.of,
    ensures
        exists|p: int| #[trigger]
            is_pair_at(dedup_lines(facts, limit), p, s, facts[a as int], facts[b as int]),
{
    let pairs = near_pairs(facts, rows(facts.len() as int, facts.len() as int));
    law_near_pairs(facts, s, a, b);
    law_duplicates_shown(facts, limit);
    assert(pairs.contains((s, (a, b))));
    let q = choose|q: int| 0 <= q < pairs.len() && pairs[q] == (s, (a, b));
    assert(pairs[q].0 == s);
    assert(is_pair_at(
        dedup_lines(facts, limit),
        long_count(facts, limit) + 3 * q,
        s,
        facts[a as int],
        facts[b as int],
    ));
}

/// The lines behind those about long texts do not depend on the limit.
pub proof fn law_pairs_ignore_limit(facts: Seq<FactText>, first: nat, second: nat)
    ensures
        dedup_lines(facts, first).skip(long_count(facts, first)) == dedup_lines(
            facts,
            second,
        ).skip(long_count(facts, second)),
{
    assert(dedup_lines(facts, first).skip(long_count(facts, first)) =~= dedup_lines(
        facts,
        second,
    ).skip(long_count(facts, second)));
}

// ---- projects ----

/// The projects that are there, and those that are not.
pub open spec fn is_there() -> spec_fn(EntryText) -> bool {
    |e: EntryText| e is Alive
}

pub open spec fn is_away() -> spec_fn(EntryText) -> bool {
    |e: EntryText| e is Gone
}

/// The line of a project: its root, the number of its facts, and the last of their dates.
pub open spec fn is_line_of(line: Seq<char>, e: EntryText) -> bool {
    e matches EntryText::Alive { root, facts: Some(facts), .. } && line == root + "  "@ + decimal(
        facts.len(),
    ) + " facts  last "@ + match last_date(facts) {
        Some(date) => date,
        None => "-"@,
    }
}

proof fn lemma_project_lines(entries: Seq<EntryText>)
    ensures
        ({
            let there = entries.filter(is_there());
            let (lines, unreadable) = project_lines(entries);
            &&& lines.len() <= there.len()
            &&& forall|i: int| 0 <= i < lines.len() ==> is_line_of(#[trigger] lines[i], there[i])
            &&& unreadable is None ==> lines.len() == there.len()
            &&& unreadable matches Some(store) ==> lines.len() < there.len()
                && there[lines.len() as int]->Alive_store == store
                && there[lines.len() as int]->facts is None
        }),
    decreases entries.len(),
{
    reveal(Seq::filter);
    if entries.len() > 0 {
        let shorter = entries.drop_last();
        lemma_project_lines(shorter);
        let (before, unreadable) = project_lines(shorter);
        let (lines, after) = project_lines(entries);
        let there = entries.filter(is_there());
        let fewer = shorter.filter(is_there());
        assert forall|i: int| 0 <= i < lines.len() implies is_line_of(
            #[trigger] lines[i],
            there[i],
        ) by {
            if i < before.len() {
                assert(lines[i] == before[i]);
                assert(is_line_of(before[i], fewer[i]));
                assert(there[i] == fewer[i]);
            }
        }
    }
}

proof fn lemma_stores_and_gone(entries: Seq<EntryText>)
    ensures
        ({
            let there = entries.filter(is_there());
            let away = entries.filter(is_away());
            &&& alive_stores(entries).len() == there.len()
            &&& forall|i: int|
                0 <= i < there.len() ==> #[trigger] alive_stores(entries)[i]
                    == there[i]->Alive_store
            &&& gone_lines(entries).len() == away.len()
            &&& forall|i: int|
                0 <= i < away.len() ==> #[trigger] gone_lines(entries)[i] == "gone: "@
                    + away[i]->Gone_store + " (removed from registry)"@
        }),
    decreases entries.len(),
{
    reveal(Seq::filter);
    if entries.len() > 0 {
        lemma_stores_and_gone(entries.drop_last());
    }
}

/// What a listing of the projects shows, line by line. Every project that is there has a line, in
/// the order of the registry, up to the first one whose facts cannot be read, which ends the listing
/// and leaves the registry as it is. Behind them every project that is gone has a line, and then the
/// registry keeps those that are there.
pub proof fn law_projects_shown(entries: Seq<EntryText>)
    ensures
        ({
            let there = entries.filter(is_there());
            let away = entries.filter(is_away());
            let n = there.len() as int;
            let r = projects_listed(entries);
            &&& r.unreadable matches Some(store) ==> {
                &&& r.lines.len() < n
                &&& there[r.lines.len() as int]->Alive_store == store
                &&& there[r.lines.len() as int]->facts is None
                &&& r.registry is None
                &&& forall|i: int|
                    0 <= i < r.lines.len() ==> is_line_of(#[trigger] r.lines[i], there[i])
            }
            &&& r.unreadable is None && entries.len() == 0 ==> r.registry is None && r.lines
                == seq![
                "no projects registered yet; the registry fills as factsheet runs in each project"@,
            ]
            &&& r.unreadable is None && entries.len() > 0 ==> {
                &&& r.lines.len() == n + away.len()
                &&& forall|i: int| 0 <= i < n ==> is_line_of(#[trigger] r.lines[i], there[i])
                &&& forall|i: int|
                    0 <= i < away.len() ==> r.lines[n + i] == "gone: "@ + (
                    #[trigger] away[i])->Gone_store + " (removed from registry)"@
                &&& away.len() == 0 ==> r.registry is None
                &&& away.len() > 0 ==> {
                    &&& r.registry is Some
                    &&& r.registry->Some_0.len() == n
                    &&& forall|i: int|
                        0 <= i < n ==> #[trigger] r.registry->Some_0[i] == there[i]->Alive_store
                }
            }
        }),
{
    lemma_project_lines(entries);
    lemma_stores_and_gone(entries);
    let (lines, unreadable) = project_lines(entries);
    let there = entries.filter(is_there());
    let away = entries.filter(is_away());
    let r = projects_listed(entries);
    if unreadable is None && entries.len() > 0 {
        assert forall|i: int| 0 <= i < there.len() implies is_line_of(
            #[trigger] r.lines[i],
            there[i],
        ) by {
            assert(r.lines[i] == lines[i]);
        }
        assert forall|i: int| 0 <= i < away.len() implies r.lines[there.len() + i] == "gone: "@ + (
        #[trigger] away[i])->Gone_store + " (removed from registry)"@ by {
            assert(r.lines[there.len() + i] == gone_lines(entries)[i]);
        }
    }
}

} // verus!
