//! Editing all facts by hand: showing the sheet, taking it in, and what that does to facts which
//! the sheet shows as they are.

use vstd::prelude::*;

use crate::commands::full_lines;
use crate::date::{date_of, date_text, law_dates_round_trip, lemma_date_bounds};
use crate::fact::{
    all_sound, bare_line, body_of, full_line, ids_differ, is_sound, lemma_position, not_ref,
    position_of, tag_field, views, Fact, FactText,
};
use crate::form::{lemma_trimmed_first, lemma_trimmed_is};
use crate::id::{free_id, is_first_free, law_id_characters};
use crate::layout::{
    fact_block, group_of, groups_of, heading, help_text, in_group, in_groups, law_groups_in_order,
    law_sheet_shows_all, render_sheet, section, sections, sheet_order, sheet_text, GroupKey,
    HELP_CHANGES, HELP_FORM, HELP_IGNORED,
};
use crate::number::{is_digit, law_number_reads_back, padded};
use crate::reading::{fits_sheet, is_plain, lacks, law_line_reads_back, line_of};
use crate::refusal::{Reason, Refusal};
use crate::search::occurs_at;
use crate::sheet::{
    apply_sheet, fact_from_line, fact_lines, is_fact_line, latest, line_merged, lines_merged,
    lines_parsed, sheet_merged, summary_text, with_fresh, Merge, SheetText,
};
use crate::store::{is_unfinished, lemma_lines_add, lemma_single_line};
use crate::text::{all_trimmed, is_white, joined, lines_of, trimmed, without_return};

verus! {

/// The sheet to edit; without a store there is none.
pub fn begin_curating(facts: Option<&[Fact]>) -> (sheet: Result<String, Refusal>)
    ensures
        match (sheet, facts) {
            (Ok(s), Some(list)) => s@ == sheet_text(views(list@)),
            (Err(e), None) => e@ == Reason::NothingToCurate,
            _ => false,
        },
{
    match facts {
        Some(list) => Ok(render_sheet(list)),
        None => Err(Refusal::NothingToCurate),
    }
}

/// What an edited sheet leads to.
#[derive(Debug)]
pub struct Curated {
    /// The facts to store, if the sheet changes any.
    pub save: Option<Vec<Fact>>,
    /// What the user is told.
    pub line: String,
}

/// Takes an edited sheet in. The store stays as it is where the sheet changes nothing or is
/// refused.
pub fn curate(facts: Vec<Fact>, sheet: &str, today: &str, limit: usize, process: u32) -> (curated:
    Result<Curated, Refusal>)
    ensures
        match (curated, sheet_merged(views(facts@), sheet@, today@, limit as nat)) {
            (Ok(c), Ok(m)) => {
                let changes = m.fresh.len() + m.edited + m.left.len();
                &&& c.line@ == summary_text(m.fresh.len(), m.edited, m.left.len())
                &&& match c.save {
                    None => changes == 0,
                    Some(list) => changes != 0 && exists|nanos: Seq<u64>|
                        nanos.len() == m.fresh.len() && views(list@) == #[trigger] with_fresh(
                            m.kept,
                            m.fresh,
                            today@,
                            nanos,
                            process,
                        ),
                }
            },
            (Err(e), Err(reason)) => e@ == reason,
            _ => false,
        },
{
    match apply_sheet(facts, sheet, today, limit, process) {
        Err(e) => Err(e),
        Ok((list, summary)) => {
            let line = summary.report();
            if summary.has_changes() {
                Ok(Curated { save: Some(list), line })
            } else {
                Ok(Curated { save: None, line })
            }
        },
    }
}

/// Whether a text has no line feed.
pub open spec fn is_unbroken(s: Seq<char>) -> bool {
    forall|i: int| 0 <= i < s.len() ==> #[trigger] s[i] != '\n'
}

/// Whether no field of a fact has a line feed.
pub open spec fn is_unbroken_fact(f: FactText) -> bool {
    &&& is_unbroken(f.id)
    &&& is_unbroken(f.text)
    &&& is_unbroken(f.check)
    &&& is_unbroken(f.ts)
    &&& forall|i: int| 0 <= i < f.tags.len() ==> is_unbroken(#[trigger] f.tags[i])
}

pub open spec fn all_unbroken(facts: Seq<FactText>) -> bool {
    forall|i: int| 0 <= i < facts.len() ==> is_unbroken_fact(#[trigger] facts[i])
}

/// Whether a fact can stand in a line of its own.
pub open spec fn fits_line(f: FactText) -> bool {
    &&& fits_sheet(f)
    &&& is_unbroken(f.id)
    &&& is_unbroken(f.ts)
    &&& forall|i: int| 0 <= i < f.tags.len() ==> is_unbroken(#[trigger] f.tags[i])
}

pub open spec fn all_fit(facts: Seq<FactText>) -> bool {
    forall|i: int| 0 <= i < facts.len() ==> fits_line(#[trigger] facts[i])
}

// ---- the lines of the sheet ----

proof fn lemma_unbroken_add(a: Seq<char>, b: Seq<char>)
    requires
        is_unbroken(a),
        is_unbroken(b),
    ensures
        is_unbroken(a + b),
{
    let s = a + b;
    assert forall|i: int| 0 <= i < s.len() implies #[trigger] s[i] != '\n' by {
        if i < a.len() {
            assert(s[i] == a[i]);
        } else {
            assert(s[i] == b[i - a.len()]);
        }
    }
}

proof fn lemma_unbroken_joined(tags: Seq<Seq<char>>)
    requires
        forall|i: int| 0 <= i < tags.len() ==> is_unbroken(#[trigger] tags[i]),
    ensures
        is_unbroken(joined(tags, " #"@)),
    decreases tags.len(),
{
    reveal_strlit(" #");
    if tags.len() == 1 {
        assert(is_unbroken(tags[0]));
    } else if tags.len() > 1 {
        let shorter = tags.drop_last();
        assert(forall|i: int| 0 <= i < shorter.len() ==> #[trigger] shorter[i] == tags[i]);
        lemma_unbroken_joined(shorter);
        assert(is_unbroken(tags[tags.len() - 1]));
        lemma_unbroken_add(joined(shorter, " #"@), " #"@);
        lemma_unbroken_add(joined(shorter, " #"@) + " #"@, tags.last());
    }
}

proof fn lemma_unbroken_line(f: FactText)
    requires
        is_unbroken_fact(f),
    ensures
        is_unbroken(full_line(f)),
        full_line(f).len() > 0,
        full_line(f)[0] == '[',
        full_line(f).last() == ')',
{
    reveal_strlit("[");
    reveal_strlit("] ");
    reveal_strlit("check: ");
    reveal_strlit(" | check: ");
    reveal_strlit("  #");
    reveal_strlit("  (");
    reveal_strlit(")");
    lemma_unbroken_add("check: "@, f.check);
    lemma_unbroken_add(f.text, " | check: "@);
    lemma_unbroken_add(f.text + " | check: "@, f.check);
    let body = body_of(f);
    assert(is_unbroken(body));
    lemma_unbroken_add("["@, f.id);
    lemma_unbroken_add("["@ + f.id, "] "@);
    lemma_unbroken_add("["@ + f.id + "] "@, body);
    lemma_unbroken_joined(f.tags);
    lemma_unbroken_add("  #"@, joined(f.tags, " #"@));
    assert(is_unbroken(tag_field(f.tags)));
    lemma_unbroken_add(bare_line(f), tag_field(f.tags));
    let a = bare_line(f) + tag_field(f.tags);
    lemma_unbroken_add(a, "  ("@);
    lemma_unbroken_add(a + "  ("@, f.ts);
    lemma_unbroken_add(a + "  ("@ + f.ts, ")"@);
}

/// The fact lines of a text that ends with its last line are apart from those of what follows.
proof fn lemma_fact_lines_add(a: Seq<char>, b: Seq<char>)
    requires
        !is_unfinished(a),
    ensures
        fact_lines(a + b) == fact_lines(a) + fact_lines(b),
{
    lemma_lines_add(a, b);
    assert(all_trimmed(lines_of(a) + lines_of(b)) =~= all_trimmed(lines_of(a)) + all_trimmed(
        lines_of(b),
    ));
    Seq::filter_distributes_over_add(
        all_trimmed(lines_of(a)),
        all_trimmed(lines_of(b)),
        is_fact_line(),
    );
}

proof fn lemma_one_fact_line(l: Seq<char>)
    requires
        is_unbroken(l),
    ensures
        fact_lines(l.push('\n')) == if is_fact_line()(trimmed(without_return(l))) {
            seq![trimmed(without_return(l))]
        } else {
            Seq::empty()
        },
{
    lemma_single_line(l);
    reveal(Seq::filter);
    let one = all_trimmed(lines_of(l.push('\n')));
    assert(one =~= seq![trimmed(without_return(l))]);
    assert(one.drop_last() =~= Seq::<Seq<char>>::empty());
    assert(one.drop_last().filter(is_fact_line()) =~= Seq::<Seq<char>>::empty());
    assert(fact_lines(l.push('\n')) =~= if is_fact_line()(trimmed(without_return(l))) {
        seq![trimmed(without_return(l))]
    } else {
        Seq::empty()
    });
}

/// A line that starts with `#`, or is empty, holds no fact.
proof fn lemma_comment_line(l: Seq<char>)
    requires
        is_unbroken(l),
        l.len() > 0 ==> l[0] == '#',
    ensures
        fact_lines(l.push('\n')) == Seq::<Seq<char>>::empty(),
{
    lemma_one_fact_line(l);
    if l.len() > 0 {
        lemma_trimmed_first(without_return(l));
    } else {
        lemma_trimmed_is(l);
    }
}

proof fn lemma_block_lines(facts: Seq<FactText>)
    requires
        all_unbroken(facts),
    ensures
        fact_lines(fact_block(facts)) == full_lines(facts),
        !is_unfinished(fact_block(facts)),
    decreases facts.len(),
{
    reveal_strlit("\n");
    if facts.len() == 0 {
        reveal(Seq::filter);
        assert(lines_of(fact_block(facts)) =~= Seq::<Seq<char>>::empty());
        assert(all_trimmed(lines_of(fact_block(facts))) =~= Seq::<Seq<char>>::empty());
        assert(fact_lines(fact_block(facts)) =~= full_lines(facts));
    } else {
        let shorter = facts.drop_last();
        assert(forall|i: int| 0 <= i < shorter.len() ==> #[trigger] shorter[i] == facts[i]);
        lemma_block_lines(shorter);
        let f = facts[facts.len() - 1];
        let line = full_line(f);
        lemma_unbroken_line(f);
        lemma_trimmed_is(line);
        lemma_one_fact_line(line);
        assert(fact_block(facts) =~= fact_block(shorter) + line.push('\n'));
        lemma_fact_lines_add(fact_block(shorter), line.push('\n'));
        assert(fact_lines(fact_block(facts)) =~= full_lines(facts));
    }
}

proof fn lemma_section_lines(facts: Seq<FactText>, g: GroupKey)
    requires
        all_unbroken(facts),
        is_unbroken(g.tag),
    ensures
        fact_lines(section(facts, g)) == full_lines(facts.filter(in_group(g))),
        !is_unfinished(section(facts, g)),
{
    reveal_strlit("\n");
    reveal_strlit("# ");
    reveal_strlit("# ref");
    reveal_strlit("# ref: ");
    let h = heading(g);
    lemma_unbroken_add("# "@, g.tag);
    lemma_unbroken_add("# ref: "@, g.tag);
    assert(is_unbroken(h));
    let group = facts.filter(in_group(g));
    assert forall|i: int| 0 <= i < group.len() implies is_unbroken_fact(#[trigger] group[i]) by {
        assert(group.contains(group[i]));
        facts.lemma_filter_contains_rev(in_group(g), group[i]);
        let k = choose|k: int| 0 <= k < facts.len() && facts[k] == group[i];
        assert(is_unbroken_fact(facts[k]));
    }
    lemma_block_lines(group);
    let nothing = Seq::<char>::empty();
    let top = nothing.push('\n');
    let second = h.push('\n');
    lemma_comment_line(nothing);
    lemma_comment_line(h);
    let block = fact_block(group);
    assert(section(facts, g) =~= top + (second + block));
    lemma_fact_lines_add(second, block);
    lemma_fact_lines_add(top, second + block);
    assert(fact_lines(section(facts, g)) =~= full_lines(group));
}

proof fn lemma_sections_lines(facts: Seq<FactText>, groups: Seq<GroupKey>)
    requires
        all_unbroken(facts),
        forall|i: int| 0 <= i < groups.len() ==> is_unbroken((#[trigger] groups[i]).tag),
    ensures
        fact_lines(sections(facts, groups)) == full_lines(in_groups(facts, groups)),
        !is_unfinished(sections(facts, groups)),
    decreases groups.len(),
{
    if groups.len() == 0 {
        reveal(Seq::filter);
        let nothing = Seq::<char>::empty();
        assert(lines_of(nothing) =~= Seq::<Seq<char>>::empty());
        assert(all_trimmed(lines_of(nothing)) =~= Seq::<Seq<char>>::empty());
        assert(fact_lines(nothing) =~= full_lines(in_groups(facts, groups)));
    } else {
        let shorter = groups.drop_last();
        assert(forall|i: int| 0 <= i < shorter.len() ==> #[trigger] shorter[i] == groups[i]);
        lemma_sections_lines(facts, shorter);
        let g = groups[groups.len() - 1];
        lemma_section_lines(facts, g);
        lemma_fact_lines_add(sections(facts, shorter), section(facts, g));
        assert(full_lines(in_groups(facts, groups)) =~= full_lines(in_groups(facts, shorter))
            + full_lines(facts.filter(in_group(g))));
    }
}

/// Whether none of the first `n` characters is a line feed.
spec fn unbroken_to(s: Seq<char>, n: int) -> bool
    decreases n,
{
    n <= 0 || (s[n - 1] != '\n' && unbroken_to(s, n - 1))
}

proof fn lemma_unbroken_to(s: Seq<char>, n: int)
    requires
        unbroken_to(s, n),
    ensures
        forall|i: int| 0 <= i < n ==> #[trigger] s[i] != '\n',
    decreases n,
{
    if n > 0 {
        lemma_unbroken_to(s, n - 1);
    }
}

proof fn lemma_help_form()
    ensures
        is_unbroken(HELP_FORM@),
        HELP_FORM@.len() > 0,
        HELP_FORM@[0] == '#',
{
    reveal_strlit(
        "# factsheet curate. One fact per line: [id] text | check: cmd  #tag #tag  (date)",
    );
    reveal_with_fuel(unbroken_to, 90);
    assert(unbroken_to(HELP_FORM@, HELP_FORM@.len() as int));
    lemma_unbroken_to(HELP_FORM@, HELP_FORM@.len() as int);
}

proof fn lemma_help_changes()
    ensures
        is_unbroken(HELP_CHANGES@),
        HELP_CHANGES@.len() > 0,
        HELP_CHANGES@[0] == '#',
{
    reveal_strlit(
        "# delete a line = drop | change text, check or tags = edit | new line without [id] = add",
    );
    reveal_with_fuel(unbroken_to, 90);
    assert(unbroken_to(HELP_CHANGES@, HELP_CHANGES@.len() as int));
    lemma_unbroken_to(HELP_CHANGES@, HELP_CHANGES@.len() as int);
}

proof fn lemma_help_ignored()
    ensures
        is_unbroken(HELP_IGNORED@),
        HELP_IGNORED@.len() > 0,
        HELP_IGNORED@[0] == '#',
{
    reveal_strlit("# lines starting with # and the (date) are ignored | empty sheet = abort");
    reveal_with_fuel(unbroken_to, 90);
    assert(unbroken_to(HELP_IGNORED@, HELP_IGNORED@.len() as int));
    lemma_unbroken_to(HELP_IGNORED@, HELP_IGNORED@.len() as int);
}

proof fn lemma_help_lines()
    ensures
        fact_lines(help_text()) == Seq::<Seq<char>>::empty(),
        !is_unfinished(help_text()),
{
    reveal_strlit("\n");
    lemma_help_form();
    lemma_help_changes();
    lemma_help_ignored();
    lemma_comment_line(HELP_FORM@);
    lemma_comment_line(HELP_CHANGES@);
    lemma_comment_line(HELP_IGNORED@);
    let a = HELP_FORM@.push('\n');
    let b = HELP_CHANGES@.push('\n');
    let c = HELP_IGNORED@.push('\n');
    assert(help_text() =~= a + (b + c));
    lemma_fact_lines_add(b, c);
    lemma_fact_lines_add(a, b + c);
    assert(fact_lines(help_text()) =~= Seq::<Seq<char>>::empty());
}

proof fn lemma_group_unbroken(f: FactText)
    requires
        is_unbroken_fact(f),
    ensures
        is_unbroken(group_of(f).tag),
{
    reveal_strlit("(untagged)");
    reveal_with_fuel(unbroken_to, 20);
    assert(unbroken_to("(untagged)"@, 10));
    lemma_unbroken_to("(untagged)"@, 10);
    let named = f.tags.filter(not_ref());
    if named.len() > 0 {
        assert(named.contains(named[0]));
        f.tags.lemma_filter_contains_rev(not_ref(), named[0]);
        let k = choose|k: int| 0 <= k < f.tags.len() && f.tags[k] == named[0];
        assert(is_unbroken(f.tags[k]));
    }
}

/// Where no field has a line feed, the lines of the sheet that hold facts are the lines of the
/// facts, in the order of the sheet.
pub proof fn law_sheet_lines(facts: Seq<FactText>)
    requires
        all_unbroken(facts),
    ensures
        fact_lines(sheet_text(facts)) == full_lines(sheet_order(facts)),
{
    let groups = groups_of(facts);
    law_groups_in_order(facts);
    assert forall|i: int| 0 <= i < groups.len() implies is_unbroken((#[trigger] groups[i]).tag) by {
        assert(groups.contains(groups[i]));
        let k = choose|k: int| 0 <= k < facts.len() && group_of(#[trigger] facts[k]) == groups[i];
        assert(is_unbroken_fact(facts[k]));
        lemma_group_unbroken(facts[k]);
    }
    lemma_sections_lines(facts, groups);
    lemma_help_lines();
    lemma_fact_lines_add(help_text(), sections(facts, groups));
    assert(fact_lines(sheet_text(facts)) =~= full_lines(sheet_order(facts)));
}

// ---- taking the lines in ----

pub open spec fn lines_for(facts: Seq<FactText>) -> Seq<SheetText> {
    facts.map_values(|f: FactText| line_of(f))
}

proof fn lemma_lines_read(facts: Seq<FactText>)
    requires
        all_sound(facts),
        all_fit(facts),
    ensures
        lines_parsed(full_lines(facts)) == Ok::<Seq<SheetText>, Reason>(lines_for(facts)),
    decreases facts.len(),
{
    if facts.len() == 0 {
        assert(lines_for(facts) =~= Seq::<SheetText>::empty());
    } else {
        let shorter = facts.drop_last();
        assert(forall|i: int| 0 <= i < shorter.len() ==> #[trigger] shorter[i] == facts[i]);
        lemma_lines_read(shorter);
        assert(full_lines(facts).drop_last() =~= full_lines(shorter));
        assert(is_sound(facts[facts.len() - 1]) && fits_line(facts[facts.len() - 1]));
        law_line_reads_back(facts.last());
        assert(lines_for(facts) =~= lines_for(shorter).push(line_of(facts.last())));
    }
}

proof fn lemma_latest_is(facts: Seq<FactText>)
    requires
        ids_differ(facts),
    ensures
        latest(facts) == facts,
    decreases facts.len(),
{
    if facts.len() > 0 {
        let shorter = facts.drop_last();
        assert(forall|i: int| 0 <= i < shorter.len() ==> #[trigger] shorter[i] == facts[i]);
        lemma_latest_is(shorter);
        lemma_position(shorter, facts.last().id);
        if let Some(i) = position_of(shorter, facts.last().id) {
            assert(facts[i].id == facts[facts.len() - 1].id);
        }
        assert(latest(facts) =~= facts);
    }
}

pub open spec fn not_in(seen: Seq<FactText>) -> spec_fn(FactText) -> bool {
    |f: FactText| !seen.contains(f)
}

proof fn lemma_filter_element(facts: Seq<FactText>, seen: Seq<FactText>, f: FactText)
    ensures
        facts.filter(not_in(seen)).contains(f) <==> facts.contains(f) && !seen.contains(f),
{
    let left = facts.filter(not_in(seen));
    if left.contains(f) {
        facts.lemma_filter_contains_rev(not_in(seen), f);
        let k = choose|k: int| 0 <= k < left.len() && left[k] == f;
        facts.lemma_filter_pred(not_in(seen), k);
    }
    if facts.contains(f) && !seen.contains(f) {
        let k = choose|k: int| 0 <= k < facts.len() && facts[k] == f;
        facts.lemma_filter_contains(not_in(seen), k);
    }
}

/// Leaving one more fact out takes it away where it stands.
proof fn lemma_filter_remove(facts: Seq<FactText>, seen: Seq<FactText>, f: FactText, i: int)
    requires
        ids_differ(facts),
        0 <= i < facts.filter(not_in(seen)).len(),
        facts.filter(not_in(seen))[i] == f,
    ensures
        facts.filter(not_in(seen.push(f))) == facts.filter(not_in(seen)).remove(i),
    decreases facts.len(),
{
    reveal(Seq::filter);
    let shorter = facts.drop_last();
    let last = facts.last();
    let more = seen.push(f);
    let left = facts.filter(not_in(seen));
    let before = shorter.filter(not_in(seen));
    assert(facts.len() > 0);
    assert(forall|k: int| 0 <= k < shorter.len() ==> #[trigger] shorter[k] == facts[k]);
    assert forall|x: FactText| #[trigger] more.contains(x) <==> seen.contains(x) || x == f by {
        broadcast use vstd::seq_lib::group_seq_properties;

    }
    if i < before.len() {
        assert(before[i] == f);
        lemma_filter_remove(shorter, seen, f, i);
        assert(before.contains(f));
        shorter.lemma_filter_contains_rev(not_in(seen), f);
        let k = choose|k: int| 0 <= k < shorter.len() && shorter[k] == f;
        assert(last != f) by {
            assert(facts[k].id != facts[facts.len() - 1].id);
        }
        assert(facts.filter(not_in(more)) =~= left.remove(i));
    } else {
        assert(last == f);
        lemma_filter_others(shorter, seen, f);
        assert(facts.filter(not_in(more)) =~= left.remove(i));
    }
}

proof fn lemma_filter_others(facts: Seq<FactText>, seen: Seq<FactText>, f: FactText)
    requires
        !facts.contains(f),
    ensures
        facts.filter(not_in(seen.push(f))) == facts.filter(not_in(seen)),
    decreases facts.len(),
{
    reveal(Seq::filter);
    if facts.len() > 0 {
        let shorter = facts.drop_last();
        let last = facts.last();
        if shorter.contains(f) {
            let k = choose|k: int| 0 <= k < shorter.len() && shorter[k] == f;
            assert(facts[k] == f);
        }
        lemma_filter_others(shorter, seen, f);
        assert(facts[facts.len() - 1] != f);
        assert(seen.push(f).contains(last) <==> seen.contains(last)) by {
            broadcast use vstd::seq_lib::group_seq_properties;

        }
    }
}

proof fn lemma_shown_merged(
    facts: Seq<FactText>,
    list: Seq<FactText>,
    today: Seq<char>,
    limit: nat,
)
    requires
        ids_differ(facts),
        ids_differ(list),
        all_sound(list),
        forall|i: int| 0 <= i < list.len() ==> facts.contains(#[trigger] list[i]),
    ensures
        lines_merged(facts, lines_for(list), today, limit) == Ok::<Merge, Reason>(
            Merge {
                left: facts.filter(not_in(list)),
                kept: list,
                fresh: Seq::empty(),
                edited: 0,
            },
        ),
    decreases list.len(),
{
    if list.len() == 0 {
        lemma_latest_is(facts);
        lemma_filter_nothing(facts, list);
        assert(list =~= Seq::<FactText>::empty());
    } else {
        let shorter = list.drop_last();
        let f = list[list.len() - 1];
        assert(forall|k: int| 0 <= k < shorter.len() ==> #[trigger] shorter[k] == list[k]);
        lemma_shown_merged(facts, shorter, today, limit);
        assert(lines_for(list).drop_last() =~= lines_for(shorter));
        assert(lines_for(list).last() == line_of(f));
        let left = facts.filter(not_in(shorter));
        let m = Merge { left, kept: shorter, fresh: Seq::empty(), edited: 0 };
        assert(!shorter.contains(f)) by {
            if shorter.contains(f) {
                let k = choose|k: int| 0 <= k < shorter.len() && shorter[k] == f;
                assert(list[k].id != list[list.len() - 1].id);
            }
        }
        lemma_filter_element(facts, shorter, f);
        let at = choose|k: int| 0 <= k < left.len() && left[k] == f;
        lemma_position(left, f.id);
        assert(left[at].id == f.id);
        let i = position_of(left, f.id)->Some_0;
        assert(left.contains(left[i]));
        lemma_filter_element(facts, shorter, left[i]);
        let a = choose|k: int| 0 <= k < facts.len() && facts[k] == left[i];
        assert(facts.contains(f));
        let b = choose|k: int| 0 <= k < facts.len() && facts[k] == f;
        assert(a == b) by {
            if a != b {
                assert(facts[a].id != facts[b].id);
            }
        }
        assert(left[i] == f);
        lemma_filter_remove(facts, shorter, f, i);
        assert(shorter.push(f) =~= list);
        assert(is_sound(f));
        assert(fact_from_line(f, line_of(f), today) =~= f);
        assert(line_merged(m, line_of(f), today, limit) == Ok::<Merge, Reason>(
            Merge {
                left: left.remove(i),
                kept: shorter.push(f),
                fresh: Seq::empty(),
                edited: 0,
            },
        ));
    }
}

proof fn lemma_filter_nothing(facts: Seq<FactText>, none: Seq<FactText>)
    requires
        none.len() == 0,
    ensures
        facts.filter(not_in(none)) == facts,
    decreases facts.len(),
{
    reveal(Seq::filter);
    if facts.len() > 0 {
        lemma_filter_nothing(facts.drop_last(), none);
        assert(!none.contains(facts.last()));
        assert(facts.filter(not_in(none)) =~= facts);
    } else {
        assert(facts.filter(not_in(none)) =~= facts);
    }
}

/// A sheet that shows some of the facts as they are, in whatever order, keeps these facts in that
/// order and drops the others; it edits none and adds none.
pub proof fn law_deleted_lines_drop(
    facts: Seq<FactText>,
    list: Seq<FactText>,
    sheet: Seq<char>,
    today: Seq<char>,
    limit: nat,
)
    requires
        ids_differ(facts),
        ids_differ(list),
        list.len() > 0,
        all_sound(list),
        all_fit(list),
        forall|i: int| 0 <= i < list.len() ==> facts.contains(#[trigger] list[i]),
        fact_lines(sheet) == full_lines(list),
    ensures
        sheet_merged(facts, sheet, today, limit) == Ok::<Merge, Reason>(
            Merge {
                left: facts.filter(not_in(list)),
                kept: list,
                fresh: Seq::empty(),
                edited: 0,
            },
        ),
{
    lemma_lines_read(list);
    lemma_shown_merged(facts, list, today, limit);
}

/// The sheet of the facts, taken in unchanged, changes nothing: no fact is dropped, edited or
/// added, and those that are kept are the facts in the order of the sheet.
pub proof fn law_unchanged_sheet(facts: Seq<FactText>, today: Seq<char>, limit: nat)
    requires
        ids_differ(facts),
        facts.len() > 0,
        all_sound(facts),
        all_fit(facts),
    ensures
        sheet_merged(facts, sheet_text(facts), today, limit) == Ok::<Merge, Reason>(
            Merge {
                left: Seq::empty(),
                kept: sheet_order(facts),
                fresh: Seq::empty(),
                edited: 0,
            },
        ),
        sheet_order(facts).to_multiset() == facts.to_multiset(),
{
    let order = sheet_order(facts);
    assert forall|i: int| 0 <= i < facts.len() implies is_unbroken_fact(#[trigger] facts[i]) by {
        assert(is_white('\n'));
        assert(is_sound(facts[i]) && fits_line(facts[i]));
    }
    law_sheet_lines(facts);
    law_sheet_shows_all(facts);
    lemma_order_elements(facts);
    law_deleted_lines_drop(facts, order, sheet_text(facts), today, limit);
    let left = facts.filter(not_in(order));
    assert(left.len() == 0) by {
        if left.len() > 0 {
            assert(left.contains(left[0]));
            lemma_filter_element(facts, order, left[0]);
        }
    }
    assert(left =~= Seq::<FactText>::empty());
}

/// The order of the sheet has the facts that there are, and no two of them twice.
proof fn lemma_order_elements(facts: Seq<FactText>)
    requires
        ids_differ(facts),
        all_sound(facts),
        all_fit(facts),
    ensures
        ids_differ(sheet_order(facts)),
        sheet_order(facts).len() == facts.len(),
        all_sound(sheet_order(facts)),
        all_fit(sheet_order(facts)),
        forall|i: int|
            0 <= i < sheet_order(facts).len() ==> facts.contains(#[trigger] sheet_order(facts)[i]),
        forall|f: FactText| facts.contains(f) ==> #[trigger] sheet_order(facts).contains(f),
{
    broadcast use vstd::seq_lib::group_to_multiset_ensures;

    let order = sheet_order(facts);
    law_sheet_shows_all(facts);
    assert(order.to_multiset().len() == order.len());
    assert(facts.to_multiset().len() == facts.len());
    assert forall|f: FactText| order.contains(f) <==> facts.contains(f) by {
        assert(order.contains(f) <==> order.to_multiset().count(f) > 0);
        assert(facts.contains(f) <==> facts.to_multiset().count(f) > 0);
    }
    assert forall|i: int| 0 <= i < order.len() implies facts.contains(#[trigger] order[i])
        && is_sound(order[i]) && fits_line(order[i]) by {
        assert(order.contains(order[i]));
        let k = choose|k: int| 0 <= k < facts.len() && facts[k] == order[i];
        assert(is_sound(facts[k]) && fits_line(facts[k]));
    }
    assert(facts.no_duplicates()) by {
        assert forall|i: int, j: int|
            0 <= i < facts.len() && 0 <= j < facts.len() && i != j implies facts[i] != facts[j] by {
            assert(facts[i].id != facts[j].id);
        }
    }
    facts.lemma_multiset_has_no_duplicates();
    order.lemma_multiset_has_no_duplicates_conv();
    assert forall|i: int, j: int|
        0 <= i < order.len() && 0 <= j < order.len() && i != j implies (#[trigger] order[i]).id != (
    #[trigger] order[j]).id by {
        assert(facts.contains(order[i]) && facts.contains(order[j]));
        let a = choose|k: int| 0 <= k < facts.len() && facts[k] == order[i];
        let b = choose|k: int| 0 <= k < facts.len() && facts[k] == order[j];
        assert(order[i] != order[j]);
        assert(a != b);
        assert(facts[a].id != facts[b].id);
    }
}

// ---- what the library makes fits ----

proof fn lemma_plain_characters(s: Seq<char>)
    requires
        forall|i: int|
            0 <= i < s.len() ==> (#[trigger] s[i]) == '-' || '0' <= s[i] <= '9' || 'a' <= s[i]
                <= 'z',
    ensures
        lacks(s, "]"@),
        lacks(s, "  "@),
        is_unbroken(s),
{
    reveal_strlit("]");
    reveal_strlit("  ");
    assert forall|j: int| !occurs_at(s, "]"@, j) by {
        if occurs_at(s, "]"@, j) {
            assert(s.subrange(j, j + 1)[0] == s[j]);
        }
    }
    assert forall|j: int| !occurs_at(s, "  "@, j) by {
        if occurs_at(s, "  "@, j) {
            assert(s.subrange(j, j + 2)[0] == s[j]);
        }
    }
}

/// The ids and the dates that the library makes can always stand in a sheet: whether a new fact can
/// be shown in a line of its own depends on its text, its check and its tags alone.
pub proof fn law_new_facts_fit(f: FactText, facts: Seq<FactText>, seed: u64, day: int)
    requires
        f.id == free_id(facts, seed),
        f.ts == date_text(date_of(day)),
        0 <= day <= i64::MAX - 719_468,
        is_plain(f),
        forall|i: int|
            0 <= i < f.tags.len() ==> lacks(#[trigger] f.tags[i], "  "@) && lacks(f.tags[i], " #"@)
                && is_unbroken(f.tags[i]),
    ensures
        fits_line(f),
{
    let k = choose|k: nat| is_first_free(facts, seed, k);
    assert forall|i: int| 0 <= i < f.id.len() implies (#[trigger] f.id[i]) == '-' || '0' <= f.id[i]
        <= '9' || 'a' <= f.id[i] <= 'z' by {
        law_id_characters(seed, k, i);
    }
    lemma_plain_characters(f.id);
    lemma_date_characters(day);
    lemma_plain_characters(f.ts);
}

proof fn lemma_date_characters(day: int)
    requires
        0 <= day <= i64::MAX - 719_468,
    ensures
        forall|i: int|
            0 <= i < date_text(date_of(day)).len() ==> (#[trigger] date_text(date_of(day))[i]) == '-'
                || '0' <= date_text(date_of(day))[i] <= '9',
{
    reveal_strlit("-");
    law_dates_round_trip(day, 0, 0, 0);
    let (y, m, d) = date_of(day);
    lemma_date_bounds(y, m, d);
    let a = padded(y as nat, 4);
    let b = padded(m as nat, 2);
    let c = padded(d as nat, 2);
    law_number_reads_back(y as nat, 4);
    law_number_reads_back(m as nat, 2);
    law_number_reads_back(d as nat, 2);
    let s = date_text((y, m, d));
    assert(s =~= a.push('-') + (b.push('-') + c));
    assert forall|i: int| 0 <= i < s.len() implies (#[trigger] s[i]) == '-' || '0' <= s[i]
        <= '9' by {
        if i < a.len() {
            assert(is_digit(a[i]));
        } else if a.len() < i < a.len() + 1 + b.len() {
            assert(is_digit(b[i - a.len() - 1]));
        } else if i > a.len() + 1 + b.len() {
            assert(is_digit(c[i - a.len() - b.len() - 2]));
        }
    }
}

} // verus!
