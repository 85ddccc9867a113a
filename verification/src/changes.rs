//! What a sheet that is taken in changes, and when it is refused.

use vstd::prelude::*;

use crate::fact::{ids_differ, lemma_position, position_of, FactText};
use crate::keeping::{comes_from, lemma_latest};
use crate::number::decimal;
use crate::refusal::Reason;
use crate::sheet::{
    fact_lines, latest, line_merged, line_parsed, lines_merged, lines_parsed, sheet_merged,
    summary_text, with_fresh, Merge, SheetText,
};

verus! {

// ---- the facts that a sheet starts from ----

/// Of facts that share an id the last one counts: the facts that a sheet starts from are those
/// behind which no fact has their id, each once.
pub proof fn law_latest(facts: Seq<FactText>, f: FactText)
    ensures
        latest(facts).contains(f) <==> exists|k: int|
            0 <= k < facts.len() && #[trigger] facts[k] == f && forall|j: int|
                k < j < facts.len() ==> (#[trigger] facts[j]).id != f.id,
        ids_differ(latest(facts)),
    decreases facts.len(),
{
    lemma_latest(facts);
    if facts.len() > 0 {
        let shorter = facts.drop_last();
        let last = facts.last();
        let before = latest(shorter);
        let n = facts.len() - 1;
        law_latest(shorter, f);
        lemma_position(before, last.id);
        assert(forall|k: int| 0 <= k < n ==> shorter[k] == #[trigger] facts[k]);
        let rest = match position_of(before, last.id) {
            Some(i) => before.remove(i),
            None => before,
        };
        assert(latest(facts) == rest.push(last));
        assert(rest.contains(f) <==> before.contains(f) && f.id != last.id) by {
            if let Some(i) = position_of(before, last.id) {
                if rest.contains(f) {
                    let a = choose|a: int| 0 <= a < rest.len() && rest[a] == f;
                    let c = if a < i {
                        a
                    } else {
                        a + 1
                    };
                    assert(before[c] == f);
                    assert(before[c].id != before[i].id);
                }
                if before.contains(f) && f.id != last.id {
                    let c = choose|c: int| 0 <= c < before.len() && before[c] == f;
                    let a = if c < i {
                        c
                    } else {
                        c - 1
                    };
                    assert(rest[a] == f);
                }
            } else if before.contains(f) {
                let c = choose|c: int| 0 <= c < before.len() && before[c] == f;
                assert(before[c].id != last.id);
            }
        }
        assert(rest.push(last).contains(f) <==> rest.contains(f) || f == last) by {
            broadcast use vstd::seq_lib::group_seq_properties;

        }
        if latest(facts).contains(f) {
            if f == last {
                assert(facts[n] == f);
            } else {
                let k = choose|k: int|
                    0 <= k < shorter.len() && #[trigger] shorter[k] == f && forall|j: int|
                        k < j < shorter.len() ==> (#[trigger] shorter[j]).id != f.id;
                assert(facts[k] == f);
                assert forall|j: int| k < j < facts.len() implies (#[trigger] facts[j]).id
                    != f.id by {
                    if j < n {
                        assert(shorter[j].id != f.id);
                    }
                }
            }
        }
        if exists|k: int|
            0 <= k < facts.len() && #[trigger] facts[k] == f && forall|j: int|
                k < j < facts.len() ==> (#[trigger] facts[j]).id != f.id {
            let k = choose|k: int|
                0 <= k < facts.len() && #[trigger] facts[k] == f && forall|j: int|
                    k < j < facts.len() ==> (#[trigger] facts[j]).id != f.id;
            if k < n {
                assert(facts[n].id != f.id);
                assert(shorter[k] == f);
                assert forall|j: int| k < j < shorter.len() implies (#[trigger] shorter[j]).id
                    != f.id by {
                    assert(facts[j].id != f.id);
                }
            }
        }
    }
}

// ---- the lines of the sheet ----

/// A sheet is read line by line: it can be read if every line can, and then every line is there;
/// if not, the first line that cannot be read is the one that is told.
pub proof fn law_lines_read(list: Seq<Seq<char>>)
    ensures
        match lines_parsed(list) {
            Ok(parsed) => parsed.len() == list.len() && forall|i: int|
                0 <= i < list.len() ==> line_parsed(#[trigger] list[i]) == Ok::<SheetText, Reason>(
                    parsed[i],
                ),
            Err(e) => exists|k: int|
                0 <= k < list.len() && line_parsed(#[trigger] list[k]) == Err::<SheetText, Reason>(e)
                    && forall|j: int| 0 <= j < k ==> line_parsed(#[trigger] list[j]) is Ok,
        },
    decreases list.len(),
{
    if list.len() > 0 {
        let shorter = list.drop_last();
        let n = list.len() - 1;
        law_lines_read(shorter);
        assert(forall|k: int| 0 <= k < n ==> shorter[k] == #[trigger] list[k]);
        match lines_parsed(shorter) {
            Ok(before) => {
                assert forall|i: int| 0 <= i < n implies line_parsed(#[trigger] list[i]) == Ok::<
                    SheetText,
                    Reason,
                >(before[i]) by {
                    assert(line_parsed(shorter[i]) == Ok::<SheetText, Reason>(before[i]));
                }
                if line_parsed(list.last()) is Err {
                    assert(line_parsed(list[n]) is Err);
                }
            },
            Err(e) => {
                let k = choose|k: int|
                    0 <= k < shorter.len() && line_parsed(#[trigger] shorter[k]) == Err::<
                        SheetText,
                        Reason,
                    >(e) && forall|j: int| 0 <= j < k ==> line_parsed(#[trigger] shorter[j]) is Ok;
                assert(line_parsed(list[k]) == Err::<SheetText, Reason>(e));
                assert forall|j: int| 0 <= j < k implies line_parsed(#[trigger] list[j]) is Ok by {
                    assert(line_parsed(shorter[j]) is Ok);
                }
            },
        }
    }
}

/// Whether one of the lines has this id.
pub open spec fn is_named(lines: Seq<SheetText>, id: Seq<char>) -> bool {
    exists|j: int| 0 <= j < lines.len() && (#[trigger] lines[j]).id == Some(id)
}

/// Whether one of the facts has this id.
pub open spec fn has_id(facts: Seq<FactText>, id: Seq<char>) -> bool {
    exists|k: int| 0 <= k < facts.len() && (#[trigger] facts[k]).id == id
}

/// Whether one of the facts has this id, this text and this check.
pub open spec fn has_content(
    facts: Seq<FactText>,
    id: Seq<char>,
    text: Seq<char>,
    check: Seq<char>,
) -> bool {
    exists|k: int|
        0 <= k < facts.len() && (#[trigger] facts[k]).id == id && facts[k].text == text
            && facts[k].check == check
}

/// Whether one of the facts has the id, the text, the check and the tags of this one.
pub open spec fn is_unchanged(g: FactText, facts: Seq<FactText>) -> bool {
    exists|k: int|
        0 <= k < facts.len() && (#[trigger] facts[k]).id == g.id && facts[k].text == g.text
            && facts[k].check == g.check && facts[k].tags == g.tags
}

/// The number of facts that differ in text, check or tags from the fact with their id.
pub open spec fn changed_count(list: Seq<FactText>, facts: Seq<FactText>) -> nat
    decreases list.len(),
{
    if list.len() == 0 {
        0
    } else {
        changed_count(list.drop_last(), facts) + if is_unchanged(list.last(), facts) {
            0nat
        } else {
            1nat
        }
    }
}

pub open spec fn with_id() -> spec_fn(SheetText) -> bool {
    |l: SheetText| l.id is Some
}

pub open spec fn without_id() -> spec_fn(SheetText) -> bool {
    |l: SheetText| l.id is None
}

/// Whether a merge is what the given lines make of the facts that the sheet starts from.
pub open spec fn is_taken_in(
    m: Merge,
    start: Seq<FactText>,
    lines: Seq<SheetText>,
    today: Seq<char>,
) -> bool {
    let named = lines.filter(with_id());
    &&& m.kept.len() == named.len()
    &&& forall|i: int|
        0 <= i < m.kept.len() ==> Some((#[trigger] m.kept[i]).id) == named[i].id && m.kept[i].text
            == named[i].text && m.kept[i].check == named[i].check && m.kept[i].tags == named[i].tags
    &&& forall|i: int| 0 <= i < m.kept.len() ==> comes_from(#[trigger] m.kept[i], start, today)
    &&& m.fresh == lines.filter(without_id())
    &&& forall|f: FactText| #[trigger]
        m.left.contains(f) <==> start.contains(f) && !is_named(lines, f.id)
    &&& m.left.len() + m.kept.len() == start.len()
    &&& m.edited == changed_count(m.kept, start)
}

/// Why a line is refused: it has neither text nor check, it is new and too long, it names an id
/// that no fact has or that an earlier line names, or it makes a text too long; nothing if it is
/// taken in.
pub open spec fn fault_of(
    start: Seq<FactText>,
    before: Seq<SheetText>,
    line: SheetText,
    limit: nat,
) -> Option<Reason> {
    if line.text.len() == 0 && line.check.len() == 0 {
        Some(
            Reason::EmptyFact {
                label: match line.id {
                    Some(id) => id,
                    None => "(new)"@,
                },
            },
        )
    } else if line.id is Some && (!has_id(start, line.id->Some_0) || is_named(
        before,
        line.id->Some_0,
    )) {
        Some(Reason::UnknownId { id: line.id->Some_0 })
    } else if line.text.len() > limit && (line.id is None || !has_content(
        start,
        line.id->Some_0,
        line.text,
        line.check,
    )) {
        Some(Reason::TooLong { length: line.text.len(), limit })
    } else {
        None
    }
}

proof fn lemma_named_push(lines: Seq<SheetText>, line: SheetText, id: Seq<char>)
    ensures
        is_named(lines.push(line), id) <==> is_named(lines, id) || line.id == Some(id),
{
    let more = lines.push(line);
    if is_named(more, id) {
        let j = choose|j: int| 0 <= j < more.len() && (#[trigger] more[j]).id == Some(id);
        if j < lines.len() {
            assert(lines[j].id == Some(id));
        }
    }
    if is_named(lines, id) {
        let j = choose|j: int| 0 <= j < lines.len() && (#[trigger] lines[j]).id == Some(id);
        assert(more[j].id == Some(id));
    }
    if line.id == Some(id) {
        assert(more[lines.len() as int].id == Some(id));
    }
}

proof fn lemma_same_fact(start: Seq<FactText>, f: FactText, g: FactText)
    requires
        ids_differ(start),
        start.contains(f),
        start.contains(g),
        f.id == g.id,
    ensures
        f == g,
{
    let a = choose|a: int| 0 <= a < start.len() && start[a] == f;
    let b = choose|b: int| 0 <= b < start.len() && start[b] == g;
    if a != b {
        assert(start[a].id != start[b].id);
    }
}

/// Taking a line in, told by the lines before it.
proof fn lemma_line_step(
    m: Merge,
    start: Seq<FactText>,
    lines: Seq<SheetText>,
    line: SheetText,
    today: Seq<char>,
    limit: nat,
)
    requires
        ids_differ(start),
        ids_differ(m.left),
        is_taken_in(m, start, lines, today),
    ensures
        match line_merged(m, line, today, limit) {
            Ok(n) => {
                &&& fault_of(start, lines, line, limit) is None
                &&& is_taken_in(n, start, lines.push(line), today)
                &&& ids_differ(n.left)
            },
            Err(e) => fault_of(start, lines, line, limit) == Some(e),
        },
{
    reveal(Seq::filter);
    let more = lines.push(line);
    assert(more.drop_last() =~= lines);
    match line.id {
        None => {
            if let Ok(n) = line_merged(m, line, today, limit) {
                assert(more.filter(with_id()) == lines.filter(with_id()));
                assert(n.fresh =~= more.filter(without_id()));
                assert forall|f: FactText| #[trigger]
                    n.left.contains(f) <==> start.contains(f) && !is_named(more, f.id) by {
                    lemma_named_push(lines, line, f.id);
                    assert(m.left.contains(f) <==> start.contains(f) && !is_named(lines, f.id));
                }
            }
        },
        Some(id) => {
            lemma_position(m.left, id);
            match position_of(m.left, id) {
                None => {
                    if has_id(start, id) && !is_named(lines, id) {
                        let k = choose|k: int|
                            0 <= k < start.len() && (#[trigger] start[k]).id == id;
                        assert(start.contains(start[k]));
                        assert(m.left.contains(start[k]));
                        let a = choose|a: int| 0 <= a < m.left.len() && m.left[a] == start[k];
                        assert(m.left[a].id != id);
                    }
                },
                Some(i) => {
                    let f = m.left[i];
                    assert(m.left.contains(f));
                    assert(start.contains(f) && !is_named(lines, id));
                    let at = choose|k: int| 0 <= k < start.len() && start[k] == f;
                    assert(start[at].id == id);
                    assert(has_id(start, id));
                    assert(has_content(start, id, line.text, line.check) <==> f.text == line.text
                        && f.check == line.check) by {
                        if has_content(start, id, line.text, line.check) {
                            let k = choose|k: int|
                                0 <= k < start.len() && (#[trigger] start[k]).id == id
                                    && start[k].text == line.text && start[k].check == line.check;
                            assert(start.contains(start[k]));
                            lemma_same_fact(start, start[k], f);
                        }
                    }
                    if let Ok(n) = line_merged(m, line, today, limit) {
                        assert(n.kept.drop_last() =~= m.kept);
                        lemma_kept_step(m, n, start, lines, line, today, i, at);
                    }
                },
            }
        },
    }
}

proof fn lemma_kept_step(
    m: Merge,
    n: Merge,
    start: Seq<FactText>,
    lines: Seq<SheetText>,
    line: SheetText,
    today: Seq<char>,
    i: int,
    at: int,
)
    requires
        ids_differ(start),
        ids_differ(m.left),
        is_taken_in(m, start, lines, today),
        line.id is Some,
        0 <= i < m.left.len(),
        m.left[i].id == line.id->Some_0,
        0 <= at < start.len(),
        start[at] == m.left[i],
        n.left == m.left.remove(i),
        n.fresh == m.fresh,
        n.kept.len() == m.kept.len() + 1,
        n.kept.drop_last() == m.kept,
        n.kept.last().id == m.left[i].id,
        n.kept.last().text == line.text,
        n.kept.last().check == line.check,
        n.kept.last().tags == line.tags,
        n.kept.last().ts == if m.left[i].text == line.text && m.left[i].check == line.check {
            m.left[i].ts
        } else {
            today
        },
        n.edited == m.edited + if m.left[i].text == line.text && m.left[i].check == line.check
            && m.left[i].tags == line.tags {
            0nat
        } else {
            1nat
        },
    ensures
        is_taken_in(n, start, lines.push(line), today),
        ids_differ(n.left),
{
    reveal(Seq::filter);
    let more = lines.push(line);
    let f = m.left[i];
    let g = n.kept.last();
    assert(more.drop_last() =~= lines);
    let named = more.filter(with_id());
    assert(named =~= lines.filter(with_id()).push(line));
    assert(more.filter(without_id()) == lines.filter(without_id()));
    assert(start[at].id == g.id);
    assert(comes_from(g, start, today));
    assert forall|k: int| 0 <= k < n.kept.len() implies Some((#[trigger] n.kept[k]).id)
        == named[k].id && n.kept[k].text == named[k].text && n.kept[k].check == named[k].check
        && n.kept[k].tags == named[k].tags && comes_from(n.kept[k], start, today) by {
        if k < m.kept.len() {
            assert(n.kept[k] == m.kept[k]);
        }
    }
    assert(is_unchanged(g, start) <==> f.text == g.text && f.check == g.check && f.tags == g.tags)
        by {
        if is_unchanged(g, start) {
            let k = choose|k: int|
                0 <= k < start.len() && (#[trigger] start[k]).id == g.id && start[k].text == g.text
                    && start[k].check == g.check && start[k].tags == g.tags;
            assert(start.contains(start[k]) && start.contains(start[at]));
            lemma_same_fact(start, start[k], f);
        }
    }
    assert forall|x: FactText| #[trigger]
        n.left.contains(x) <==> start.contains(x) && !is_named(more, x.id) by {
        lemma_named_push(lines, line, x.id);
        assert(m.left.contains(x) <==> start.contains(x) && !is_named(lines, x.id));
        if n.left.contains(x) {
            let a = choose|a: int| 0 <= a < n.left.len() && n.left[a] == x;
            let c = if a < i {
                a
            } else {
                a + 1
            };
            assert(m.left[c] == x);
            assert(m.left[c].id != m.left[i].id);
        }
        if m.left.contains(x) && x.id != f.id {
            let c = choose|c: int| 0 <= c < m.left.len() && m.left[c] == x;
            let a = if c < i {
                c
            } else {
                c - 1
            };
            assert(n.left[a] == x);
        }
    }
    assert forall|a: int, b: int|
        0 <= a < n.left.len() && 0 <= b < n.left.len() && a != b implies (#[trigger] n.left[a]).id
        != (#[trigger] n.left[b]).id by {
        let c = if a < i {
            a
        } else {
            a + 1
        };
        let d = if b < i {
            b
        } else {
            b + 1
        };
        assert(m.left[c].id != m.left[d].id);
    }
}

/// What the lines of a sheet make of the facts. If no line is at fault, the facts that lines name
/// are kept in the order of the lines, each with the text, the check and the tags of its line, and
/// with a new date exactly if text or check are new; the lines without id are the new facts; the
/// facts that no line names are dropped; and as many facts count as edited as differ in text, check
/// or tags from the fact with their id. Otherwise the first line at fault says why the sheet is
/// refused.
pub proof fn law_lines_taken_in(
    facts: Seq<FactText>,
    lines: Seq<SheetText>,
    today: Seq<char>,
    limit: nat,
)
    ensures
        match lines_merged(facts, lines, today, limit) {
            Ok(m) => {
                &&& is_taken_in(m, latest(facts), lines, today)
                &&& ids_differ(m.left)
                &&& forall|k: int|
                    0 <= k < lines.len() ==> fault_of(
                        latest(facts),
                        lines.take(k),
                        #[trigger] lines[k],
                        limit,
                    ) is None
            },
            Err(e) => exists|k: int|
                0 <= k < lines.len() && fault_of(
                    latest(facts),
                    lines.take(k),
                    #[trigger] lines[k],
                    limit,
                ) == Some(e) && forall|j: int|
                    0 <= j < k ==> fault_of(
                        latest(facts),
                        lines.take(j),
                        #[trigger] lines[j],
                        limit,
                    ) is None,
        },
    decreases lines.len(),
{
    let start = latest(facts);
    lemma_latest(facts);
    if lines.len() == 0 {
        reveal(Seq::filter);
        let m = lines_merged(facts, lines, today, limit)->Ok_0;
        assert(lines.filter(with_id()) =~= Seq::<SheetText>::empty());
        assert(m.fresh =~= lines.filter(without_id()));
        assert(forall|id: Seq<char>| !is_named(lines, id));
    } else {
        let shorter = lines.drop_last();
        let n = lines.len() - 1;
        law_lines_taken_in(facts, shorter, today, limit);
        assert(shorter.push(lines.last()) =~= lines);
        assert(forall|k: int| 0 <= k < n ==> shorter[k] == #[trigger] lines[k]);
        assert forall|k: int| 0 <= k < n implies shorter.take(k) == #[trigger] lines.take(k) by {
            assert(shorter.take(k) =~= lines.take(k));
        }
        assert(lines.take(n) =~= shorter);
        match lines_merged(facts, shorter, today, limit) {
            Ok(m) => {
                lemma_line_step(m, start, shorter, lines.last(), today, limit);
                assert forall|k: int| 0 <= k < n implies fault_of(
                    start,
                    lines.take(k),
                    #[trigger] lines[k],
                    limit,
                ) is None by {
                    assert(fault_of(start, shorter.take(k), shorter[k], limit) is None);
                }
                if let Err(e) = lines_merged(facts, lines, today, limit) {
                    assert(fault_of(start, lines.take(n), lines[n], limit) == Some(e));
                }
            },
            Err(e) => {
                let k = choose|k: int|
                    0 <= k < shorter.len() && fault_of(
                        start,
                        shorter.take(k),
                        #[trigger] shorter[k],
                        limit,
                    ) == Some(e) && forall|j: int|
                        0 <= j < k ==> fault_of(
                            start,
                            shorter.take(j),
                            #[trigger] shorter[j],
                            limit,
                        ) is None;
                assert(fault_of(start, lines.take(k), lines[k], limit) == Some(e));
                assert forall|j: int| 0 <= j < k implies fault_of(
                    start,
                    lines.take(j),
                    #[trigger] lines[j],
                    limit,
                ) is None by {
                    assert(fault_of(start, shorter.take(j), shorter[j], limit) is None);
                }
            },
        }
    }
}

proof fn lemma_none_changed(list: Seq<FactText>, facts: Seq<FactText>)
    requires
        changed_count(list, facts) == 0,
    ensures
        forall|i: int| 0 <= i < list.len() ==> is_unchanged(#[trigger] list[i], facts),
    decreases list.len(),
{
    if list.len() > 0 {
        let shorter = list.drop_last();
        lemma_none_changed(shorter, facts);
        assert(forall|i: int| 0 <= i < shorter.len() ==> shorter[i] == #[trigger] list[i]);
    }
}

/// A sheet counts as changing nothing only if it keeps exactly the facts that there were: none is
/// dropped, none is new, and none differs in anything.
pub proof fn law_no_changes_means_none(
    facts: Seq<FactText>,
    lines: Seq<SheetText>,
    today: Seq<char>,
    limit: nat,
)
    ensures
        lines_merged(facts, lines, today, limit) matches Ok(m) ==> (m.fresh.len() + m.edited
            + m.left.len() == 0 ==> m.kept.to_multiset() == latest(facts).to_multiset()),
{
    if let Ok(m) = lines_merged(facts, lines, today, limit) {
        if m.fresh.len() + m.edited + m.left.len() == 0 {
            let start = latest(facts);
            let kept = m.kept;
            law_lines_taken_in(facts, lines, today, limit);
            lemma_latest(facts);
            lemma_none_changed(kept, start);
            assert forall|i: int| 0 <= i < kept.len() implies start.contains(
                #[trigger] kept[i],
            ) by {
                let g = kept[i];
                assert(is_unchanged(g, start));
                assert(comes_from(g, start, today));
                let k = choose|k: int|
                    0 <= k < start.len() && (#[trigger] start[k]).id == g.id && start[k].text
                        == g.text && start[k].check == g.check && start[k].tags == g.tags;
                let c = choose|c: int|
                    0 <= c < start.len() && (#[trigger] start[c]).id == g.id && g.ts
                        == if start[c].text == g.text && start[c].check == g.check {
                        start[c].ts
                    } else {
                        today
                    };
                assert(start.contains(start[k]) && start.contains(start[c]));
                lemma_same_fact(start, start[k], start[c]);
                assert(start[k] =~= g);
            }
            assert forall|f: FactText| start.contains(f) implies kept.contains(f) by {
                assert(!m.left.contains(f));
                assert(is_named(lines, f.id));
                lemma_named_kept(m, start, lines, today, f.id);
                let i = choose|i: int| 0 <= i < kept.len() && (#[trigger] kept[i]).id == f.id;
                assert(start.contains(kept[i]));
                lemma_same_fact(start, kept[i], f);
            }
            lemma_rearranged(kept, start);
        }
    }
}

proof fn lemma_named_kept(
    m: Merge,
    start: Seq<FactText>,
    lines: Seq<SheetText>,
    today: Seq<char>,
    id: Seq<char>,
)
    requires
        is_taken_in(m, start, lines, today),
        is_named(lines, id),
    ensures
        exists|i: int| 0 <= i < m.kept.len() && (#[trigger] m.kept[i]).id == id,
{
    let j = choose|j: int| 0 <= j < lines.len() && (#[trigger] lines[j]).id == Some(id);
    let named = lines.filter(with_id());
    lines.lemma_filter_contains(with_id(), j);
    let i = choose|i: int| 0 <= i < named.len() && named[i] == lines[j];
    assert(m.kept[i].id == id);
}

/// Two lists of the same length with the same elements, of which one has an id for every fact of its
/// own, are rearrangements of each other.
proof fn lemma_rearranged(a: Seq<FactText>, b: Seq<FactText>)
    requires
        a.len() == b.len(),
        ids_differ(b),
        forall|i: int| 0 <= i < a.len() ==> b.contains(#[trigger] a[i]),
        forall|f: FactText| b.contains(f) ==> a.contains(f),
    ensures
        a.to_multiset() == b.to_multiset(),
{
    broadcast use vstd::seq_lib::group_to_multiset_ensures;

    assert(b.no_duplicates()) by {
        assert forall|i: int, j: int|
            0 <= i < b.len() && 0 <= j < b.len() && i != j implies b[i] != b[j] by {
            assert(b[i].id != b[j].id);
        }
    }
    b.unique_seq_to_set();
    assert(a.to_set() =~= b.to_set()) by {
        assert forall|f: FactText| a.to_set().contains(f) <==> b.to_set().contains(f) by {
            if a.contains(f) {
                let i = choose|i: int| 0 <= i < a.len() && a[i] == f;
                assert(b.contains(a[i]));
            }
        }
    }
    a.lemma_no_dup_set_cardinality();
    a.lemma_multiset_has_no_duplicates();
    b.lemma_multiset_has_no_duplicates();
    assert forall|f: FactText| a.to_multiset().count(f) == b.to_multiset().count(f) by {
        assert(a.contains(f) <==> b.contains(f)) by {
            assert(a.to_set().contains(f) <==> b.to_set().contains(f));
        }
        assert(a.to_multiset().contains(f) <==> a.contains(f));
        assert(b.to_multiset().contains(f) <==> b.contains(f));
    }
    assert(a.to_multiset() =~= b.to_multiset());
}

/// What becomes of a sheet as a whole: a line that cannot be read refuses it, and so does a sheet
/// without facts; else its lines are taken in.
pub proof fn law_sheet_outcome(facts: Seq<FactText>, sheet: Seq<char>, today: Seq<char>, limit: nat)
    ensures
        match lines_parsed(fact_lines(sheet)) {
            Err(e) => sheet_merged(facts, sheet, today, limit) == Err::<Merge, Reason>(e),
            Ok(lines) => if fact_lines(sheet).len() == 0 {
                sheet_merged(facts, sheet, today, limit) == Err::<Merge, Reason>(Reason::EmptySheet)
            } else {
                sheet_merged(facts, sheet, today, limit) == lines_merged(facts, lines, today, limit)
            },
        },
{
    law_lines_read(fact_lines(sheet));
}

/// The new facts of a sheet stand behind those that it keeps, in the order of their lines: each has
/// the text, the check and the tags of its line and today's date.
pub proof fn law_new_lines_added(
    kept: Seq<FactText>,
    fresh: Seq<SheetText>,
    today: Seq<char>,
    nanos: Seq<u64>,
    process: u32,
)
    ensures
        ({
            let after = with_fresh(kept, fresh, today, nanos, process);
            &&& after.len() == kept.len() + fresh.len()
            &&& after.take(kept.len() as int) == kept
            &&& forall|i: int|
                0 <= i < fresh.len() ==> {
                    let f = after[kept.len() + i];
                    f.text == (#[trigger] fresh[i]).text && f.check == fresh[i].check && f.tags
                        == fresh[i].tags && f.ts == today
                }
        }),
    decreases fresh.len(),
{
    let after = with_fresh(kept, fresh, today, nanos, process);
    if fresh.len() == 0 {
        assert(after.take(kept.len() as int) =~= kept);
    } else {
        let shorter = fresh.drop_last();
        let before = with_fresh(kept, shorter, today, nanos, process);
        law_new_lines_added(kept, shorter, today, nanos, process);
        assert(after.take(kept.len() as int) =~= before.take(kept.len() as int));
        assert forall|i: int| 0 <= i < fresh.len() implies {
            let f = after[kept.len() + i];
            f.text == (#[trigger] fresh[i]).text && f.check == fresh[i].check && f.tags
                == fresh[i].tags && f.ts == today
        } by {
            if i < shorter.len() {
                assert(shorter[i] == fresh[i]);
                assert(after[kept.len() + i] == before[kept.len() + i]);
            }
        }
    }
}

/// Nothing but a sheet without additions, edits and drops is told as no change.
pub proof fn law_summary(added: nat, edited: nat, dropped: nat)
    ensures
        summary_text(added, edited, dropped) == "no changes"@ <==> added + edited + dropped == 0,
        added + edited + dropped > 0 ==> summary_text(added, edited, dropped) == "added "@
            + decimal(added) + ", edited "@ + decimal(edited)
            + ", dropped "@ + decimal(dropped),
{
    reveal_strlit("no changes");
    reveal_strlit("added ");
    let s = summary_text(added, edited, dropped);
    if added + edited + dropped > 0 {
        assert(s[0] == 'a');
        assert("no changes"@[0] == 'n');
    }
}

} // verus!
