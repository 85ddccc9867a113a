//! The sheet: all facts as text that is edited by hand.

use vstd::prelude::*;

use crate::clock::unix_now;
use crate::fact::{
    check_len, clean_tags, cleaned, lemma_views_push, length_checked, position, position_of, views,
    Fact, FactText,
};
use crate::id::{free_id, new_id, seed_of};
use crate::number::{decimal, push_number};
use crate::refusal::{Reason, Refusal};
use crate::search::{after_prefix, cut, opt_text, parts_of, split, split_once, strip_prefix};
use crate::text::{
    all_trimmed, at_least, chars_of, extend_texts, keep_at_least, lemma_texts_push, lines,
    lines_of, on_one_line, one_line, same, same_texts, texts, trim, trim_all, trimmed,
};

verus! {

// ---- one line ----

/// What a line of a sheet says.
#[derive(Debug)]
pub struct SheetLine {
    /// The fact that the line is about; a line without id is a new fact.
    pub id: Option<String>,
    pub text: String,
    pub check: String,
    pub tags: Vec<String>,
}

#[verifier::ext_equal]
pub struct SheetText {
    pub id: Option<Seq<char>>,
    pub text: Seq<char>,
    pub check: Seq<char>,
    pub tags: Seq<Seq<char>>,
}

impl View for SheetLine {
    type V = SheetText;

    open spec fn view(&self) -> SheetText {
        SheetText {
            id: opt_text(self.id),
            text: self.text@,
            check: self.check@,
            tags: texts(self.tags@),
        }
    }
}

/// The fields of a line: what two spaces separate.
pub open spec fn fields_of(line: Seq<char>) -> Seq<Seq<char>> {
    all_trimmed(parts_of(line, "  "@)).filter(at_least(1))
}

/// Whether a field stands in round brackets, as the date does.
pub open spec fn is_bracketed(field: Seq<char>) -> bool {
    field.len() > 0 && field[0] == '(' && field.last() == ')'
}

/// The tags in the fields that follow the first one; `None` if one of these fields holds neither
/// tags nor a date.
pub open spec fn tags_in(fields: Seq<Seq<char>>) -> Option<Seq<Seq<char>>>
    decreases fields.len(),
{
    if fields.len() == 0 {
        Some(Seq::empty())
    } else {
        match tags_in(fields.drop_last()) {
            None => None,
            Some(before) => match after_prefix(fields.last(), "#"@) {
                Some(rest) => Some(before + parts_of(rest, " #"@)),
                None => if is_bracketed(fields.last()) {
                    Some(before)
                } else {
                    None
                },
            },
        }
    }
}

/// The id and the rest of the first field.
pub open spec fn head_split(head: Seq<char>) -> (Option<Seq<char>>, Seq<char>) {
    match after_prefix(head, "["@) {
        Some(rest) => match cut(rest, "]"@) {
            Some((id, body)) => (Some(id), trimmed(body)),
            None => (None, head),
        },
        None => (None, head),
    }
}

/// The text and the check of a fact.
pub open spec fn body_split(body: Seq<char>) -> (Seq<char>, Seq<char>) {
    match after_prefix(body, "check: "@) {
        Some(check) => (Seq::empty(), check),
        None => match cut(body, " | check: "@) {
            Some((text, check)) => (text, check),
            None => (body, Seq::empty()),
        },
    }
}

/// What a line of a sheet says.
pub open spec fn line_parsed(line: Seq<char>) -> Result<SheetText, Reason> {
    let fields = fields_of(line);
    if fields.len() == 0 {
        Err(Reason::EmptyLine { line })
    } else {
        match tags_in(fields.drop_first()) {
            None => Err(Reason::Unreadable { line }),
            Some(tags) => {
                let (id, body) = head_split(fields[0]);
                let (text, check) = body_split(body);
                Ok(
                    SheetText {
                        id,
                        text: on_one_line(text),
                        check: on_one_line(check),
                        tags: cleaned(tags),
                    },
                )
            },
        }
    }
}

pub open spec fn line_result(r: Result<SheetLine, Refusal>) -> Result<SheetText, Reason> {
    match r {
        Ok(l) => Ok(l@),
        Err(e) => Err(e@),
    }
}

fn in_brackets(field: &str) -> (hit: bool)
    ensures
        hit == is_bracketed(field@),
{
    let chars = chars_of(field);
    chars.len() > 0 && chars[0] == '(' && chars[chars.len() - 1] == ')'
}

fn split_head(head: &str) -> (parts: (Option<String>, String))
    ensures
        (opt_text(parts.0), parts.1@) == head_split(head@),
{
    match strip_prefix(head, "[") {
        Some(rest) => match split_once(&rest, "]") {
            Some((id, body)) => (Some(id), trim(&body)),
            None => (None, head.to_owned()),
        },
        None => (None, head.to_owned()),
    }
}

fn split_body(body: &str) -> (parts: (String, String))
    ensures
        (parts.0@, parts.1@) == body_split(body@),
{
    match strip_prefix(body, "check: ") {
        Some(check) => (String::new(), check),
        None => match split_once(body, " | check: ") {
            Some(parts) => parts,
            None => (body.to_owned(), String::new()),
        },
    }
}

/// Reads one line of a sheet: an optional id in square brackets, text and check, then, each
/// behind two spaces, tags and a date that is ignored.
pub fn parse_sheet_line(line: &str) -> (parsed: Result<SheetLine, Refusal>)
    ensures
        line_result(parsed) == line_parsed(line@),
{
    proof {
        reveal_strlit("  ");
        reveal_strlit(" #");
    }
    let fields = keep_at_least(trim_all(&split(line, "  ")), 1);
    let ghost f = texts(fields@);
    assert(f == fields_of(line@));
    if fields.len() == 0 {
        return Err(Refusal::EmptyLine { line: line.to_owned() });
    }
    let mut tags: Vec<String> = Vec::new();
    let ghost rest = f.drop_first();
    assert(tags_in(rest.take(0)) == Some(texts(tags@)));
    for i in 1..fields.len()
        invariant
            f == texts(fields@),
            f == fields_of(line@),
            f.len() > 0,
            rest == f.drop_first(),
            tags_in(rest.take(i - 1)) == Some(texts(tags@)),
            " #"@.len() == 2,
    {
        assert(rest.take(i as int).drop_last() =~= rest.take(i - 1));
        assert(rest.take(i as int).last() == f[i as int]);
        match strip_prefix(&fields[i], "#") {
            Some(list) => {
                extend_texts(&mut tags, &split(&list, " #"));
            },
            None => {
                if !in_brackets(&fields[i]) {
                    proof {
                        lemma_tags_stay_unreadable(rest, i as int);
                    }
                    return Err(Refusal::Unreadable { line: line.to_owned() });
                }
            },
        }
    }
    assert(rest.take(rest.len() as int) =~= rest);
    let (id, body) = split_head(&fields[0]);
    let (text, check) = split_body(&body);
    Ok(
        SheetLine {
            id,
            text: one_line(&text),
            check: one_line(&check),
            tags: clean_tags(&tags),
        },
    )
}

proof fn lemma_tags_stay_unreadable(fields: Seq<Seq<char>>, k: int)
    requires
        0 <= k <= fields.len(),
        tags_in(fields.take(k)) is None,
    ensures
        tags_in(fields) is None,
    decreases fields.len() - k,
{
    if k == fields.len() {
        assert(fields.take(k) =~= fields);
    } else {
        assert(fields.take(k + 1).drop_last() =~= fields.take(k));
        lemma_tags_stay_unreadable(fields, k + 1);
    }
}

// ---- the whole sheet ----

/// The lines that hold a fact: neither blank nor starting with `#`.
pub open spec fn is_fact_line() -> spec_fn(Seq<char>) -> bool {
    |l: Seq<char>| l.len() > 0 && l[0] != '#'
}

pub open spec fn fact_lines(sheet: Seq<char>) -> Seq<Seq<char>> {
    all_trimmed(lines_of(sheet)).filter(is_fact_line())
}

/// What the lines say, or why the first line that cannot be read cannot.
pub open spec fn lines_parsed(list: Seq<Seq<char>>) -> Result<Seq<SheetText>, Reason>
    decreases list.len(),
{
    if list.len() == 0 {
        Ok(Seq::empty())
    } else {
        match lines_parsed(list.drop_last()) {
            Err(e) => Err(e),
            Ok(before) => match line_parsed(list.last()) {
                Err(e) => Err(e),
                Ok(line) => Ok(before.push(line)),
            },
        }
    }
}

pub open spec fn line_views(list: Seq<SheetLine>) -> Seq<SheetText> {
    list.map_values(|l: SheetLine| l@)
}

proof fn lemma_line_views_push(list: Seq<SheetLine>, line: SheetLine)
    ensures
        line_views(list.push(line)) == line_views(list).push(line@),
{
    assert(line_views(list.push(line)) =~= line_views(list).push(line@));
}

fn keep_fact_lines(list: Vec<String>) -> (kept: Vec<String>)
    ensures
        texts(kept@) == texts(list@).filter(is_fact_line()),
{
    let mut kept: Vec<String> = Vec::new();
    proof {
        reveal(Seq::filter);
    }
    for i in 0..list.len()
        invariant
            texts(kept@) == texts(list@).take(i as int).filter(is_fact_line()),
    {
        assert(texts(list@).take(i + 1).drop_last() =~= texts(list@).take(i as int));
        proof {
            reveal(Seq::filter);
        }
        let s = list[i].clone();
        let chars = chars_of(&s);
        if chars.len() > 0 && chars[0] != '#' {
            proof {
                lemma_texts_push(kept@, s);
            }
            kept.push(s);
        }
    }
    assert(texts(list@).take(list@.len() as int) =~= texts(list@));
    kept
}

proof fn lemma_lines_stay_unreadable(list: Seq<Seq<char>>, k: int)
    requires
        0 <= k <= list.len(),
        lines_parsed(list.take(k)) is Err,
    ensures
        lines_parsed(list) == lines_parsed(list.take(k)),
    decreases list.len() - k,
{
    if k == list.len() {
        assert(list.take(k) =~= list);
    } else {
        assert(list.take(k + 1).drop_last() =~= list.take(k));
        lemma_lines_stay_unreadable(list, k + 1);
    }
}

fn parse_sheet(sheet: &str) -> (parsed: Result<Vec<SheetLine>, Refusal>)
    ensures
        match parsed {
            Ok(list) => lines_parsed(fact_lines(sheet@)) == Ok::<Seq<SheetText>, Reason>(
                line_views(list@),
            ),
            Err(e) => lines_parsed(fact_lines(sheet@)) == Err::<Seq<SheetText>, Reason>(e@),
        },
{
    let raw = keep_fact_lines(trim_all(&lines(sheet)));
    let ghost all = texts(raw@);
    let mut list: Vec<SheetLine> = Vec::new();
    assert(line_views(list@) =~= Seq::<SheetText>::empty());
    for i in 0..raw.len()
        invariant
            all == texts(raw@),
            all == fact_lines(sheet@),
            lines_parsed(all.take(i as int)) == Ok::<Seq<SheetText>, Reason>(line_views(list@)),
    {
        assert(all.take(i + 1).drop_last() =~= all.take(i as int));
        match parse_sheet_line(&raw[i]) {
            Ok(line) => {
                proof {
                    lemma_line_views_push(list@, line);
                }
                list.push(line);
            },
            Err(e) => {
                proof {
                    lemma_lines_stay_unreadable(all, i + 1);
                }
                return Err(e);
            },
        }
    }
    assert(all.take(all.len() as int) =~= all);
    Ok(list)
}

/// The last fact of every id.
pub open spec fn latest(facts: Seq<FactText>) -> Seq<FactText>
    decreases facts.len(),
{
    if facts.len() == 0 {
        Seq::empty()
    } else {
        let before = latest(facts.drop_last());
        match position_of(before, facts.last().id) {
            Some(i) => before.remove(i).push(facts.last()),
            None => before.push(facts.last()),
        }
    }
}

fn keep_latest(facts: Vec<Fact>) -> (kept: Vec<Fact>)
    ensures
        views(kept@) == latest(views(facts@)),
{
    let mut kept: Vec<Fact> = Vec::new();
    assert(views(kept@) =~= Seq::<FactText>::empty());
    for i in 0..facts.len()
        invariant
            views(kept@) == latest(views(facts@).take(i as int)),
    {
        assert(views(facts@).take(i + 1).drop_last() =~= views(facts@).take(i as int));
        let f = facts[i].copied();
        if let Some(k) = position(&kept, &f.id) {
            let ghost before = kept@;
            kept.remove(k);
            assert(views(kept@) =~= views(before).remove(k as int));
        }
        proof {
            lemma_views_push(kept@, f);
        }
        kept.push(f);
    }
    assert(views(facts@).take(facts@.len() as int) =~= views(facts@));
    kept
}

/// How far a sheet has been taken in: the facts that no line has named yet, those that a line has
/// named, as the line has them, the lines of new facts, and the number of facts that changed.
#[verifier::ext_equal]
pub struct Merge {
    pub left: Seq<FactText>,
    pub kept: Seq<FactText>,
    pub fresh: Seq<SheetText>,
    pub edited: nat,
}

/// What the user calls a line: the id of its fact.
pub open spec fn label_of(line: SheetText) -> Seq<char> {
    match line.id {
        Some(id) => id,
        None => "(new)"@,
    }
}

/// A fact as a line of the sheet has it. A change of text or check makes `today` its date; a
/// change of tags alone does not.
pub open spec fn fact_from_line(f: FactText, line: SheetText, today: Seq<char>) -> FactText {
    let changed = f.text != line.text || f.check != line.check;
    FactText {
        id: f.id,
        text: line.text,
        check: line.check,
        tags: line.tags,
        ts: if changed {
            today
        } else {
            f.ts
        },
    }
}

/// Takes one line in.
pub open spec fn line_merged(
    m: Merge,
    line: SheetText,
    today: Seq<char>,
    limit: nat,
) -> Result<Merge, Reason> {
    if line.text.len() == 0 && line.check.len() == 0 {
        Err(Reason::EmptyFact { label: label_of(line) })
    } else {
        match line.id {
            None => match length_checked(line.text, limit) {
                Err(e) => Err(e),
                Ok(_) => Ok(Merge { fresh: m.fresh.push(line), ..m }),
            },
            Some(id) => match position_of(m.left, id) {
                None => Err(Reason::UnknownId { id }),
                Some(i) => {
                    let f = m.left[i];
                    let changed = f.text != line.text || f.check != line.check;
                    if changed && length_checked(line.text, limit) is Err {
                        Err(length_checked(line.text, limit)->Err_0)
                    } else {
                        Ok(
                            Merge {
                                left: m.left.remove(i),
                                kept: m.kept.push(fact_from_line(f, line, today)),
                                fresh: m.fresh,
                                edited: m.edited + if changed || f.tags != line.tags {
                                    1nat
                                } else {
                                    0nat
                                },
                            },
                        )
                    }
                },
            },
        }
    }
}

/// Takes lines in, one after the other.
pub open spec fn lines_merged(
    facts: Seq<FactText>,
    list: Seq<SheetText>,
    today: Seq<char>,
    limit: nat,
) -> Result<Merge, Reason>
    decreases list.len(),
{
    if list.len() == 0 {
        Ok(
            Merge {
                left: latest(facts),
                kept: Seq::empty(),
                fresh: Seq::empty(),
                edited: 0,
            },
        )
    } else {
        match lines_merged(facts, list.drop_last(), today, limit) {
            Err(e) => Err(e),
            Ok(m) => line_merged(m, list.last(), today, limit),
        }
    }
}

/// What a sheet makes of the facts, but for the ids of the new ones.
pub open spec fn sheet_merged(
    facts: Seq<FactText>,
    sheet: Seq<char>,
    today: Seq<char>,
    limit: nat,
) -> Result<Merge, Reason> {
    match lines_parsed(fact_lines(sheet)) {
        Err(e) => Err(e),
        Ok(list) => if list.len() == 0 {
            Err(Reason::EmptySheet)
        } else {
            lines_merged(facts, list, today, limit)
        },
    }
}

/// What a sheet makes of the facts, but for the ids of the new ones.
#[derive(Debug)]
pub struct SheetPlan {
    /// The facts that the sheet drops.
    pub left: Vec<Fact>,
    /// The facts that it keeps, in its order.
    pub kept: Vec<Fact>,
    /// The new facts.
    pub fresh: Vec<SheetLine>,
    /// The number of kept facts that it changes.
    pub edited: usize,
}

impl View for SheetPlan {
    type V = Merge;

    open spec fn view(&self) -> Merge {
        Merge {
            left: views(self.left@),
            kept: views(self.kept@),
            fresh: line_views(self.fresh@),
            edited: self.edited as nat,
        }
    }
}

pub open spec fn plan_result(r: Result<SheetPlan, Refusal>) -> Result<Merge, Reason> {
    match r {
        Ok(plan) => Ok(plan@),
        Err(e) => Err(e@),
    }
}

fn label(line: &SheetLine) -> (s: String)
    ensures
        s@ == label_of(line@),
{
    match &line.id {
        Some(id) => id.clone(),
        None => "(new)".to_owned(),
    }
}

fn merge_line(plan: SheetPlan, line: SheetLine, today: &str, limit: usize) -> (merged: Result<
    SheetPlan,
    Refusal,
>)
    requires
        plan.edited < usize::MAX,
    ensures
        plan_result(merged) == line_merged(plan@, line@, today@, limit as nat),
        merged matches Ok(p) ==> p.edited <= plan.edited + 1,
{
    let mut plan = plan;
    let ghost start = plan@;
    if line.text.as_str().is_empty() && line.check.as_str().is_empty() {
        return Err(Refusal::EmptyFact { label: label(&line) });
    }
    let found = match &line.id {
        None => {
            match check_len(&line.text, limit) {
                Err(e) => {
                    return Err(e);
                },
                Ok(_) => {},
            }
            None
        },
        Some(id) => match position(&plan.left, id) {
            None => {
                return Err(Refusal::UnknownId { id: id.clone() });
            },
            Some(i) => Some(i),
        },
    };
    match found {
        None => {
            proof {
                lemma_line_views_push(plan.fresh@, line);
            }
            plan.fresh.push(line);
            assert(plan@ =~= (Merge { fresh: start.fresh.push(line@), ..start }));
            Ok(plan)
        },
        Some(i) => {
            let ghost left = plan.left@;
            let f = plan.left.remove(i);
            assert(views(plan.left@) =~= views(left).remove(i as int));
            assert(f@ == start.left[i as int]);
            let changed = !same(&f.text, &line.text) || !same(&f.check, &line.check);
            if changed {
                match check_len(&line.text, limit) {
                    Err(e) => {
                        return Err(e);
                    },
                    Ok(_) => {},
                }
            }
            if changed || !same_texts(&f.tags, &line.tags) {
                plan.edited = plan.edited + 1;
            }
            let ts = if changed {
                today.to_owned()
            } else {
                f.ts
            };
            let new = Fact { id: f.id, text: line.text, check: line.check, tags: line.tags, ts };
            assert(new@ == fact_from_line(start.left[i as int], line@, today@));
            proof {
                lemma_views_push(plan.kept@, new);
            }
            plan.kept.push(new);
            Ok(plan)
        },
    }
}

proof fn lemma_merge_stays_refused(
    facts: Seq<FactText>,
    list: Seq<SheetText>,
    today: Seq<char>,
    limit: nat,
    k: int,
)
    requires
        0 <= k <= list.len(),
        lines_merged(facts, list.take(k), today, limit) is Err,
    ensures
        lines_merged(facts, list, today, limit) == lines_merged(facts, list.take(k), today, limit),
    decreases list.len() - k,
{
    if k == list.len() {
        assert(list.take(k) =~= list);
    } else {
        assert(list.take(k + 1).drop_last() =~= list.take(k));
        lemma_merge_stays_refused(facts, list, today, limit, k + 1);
    }
}

/// Reads a sheet and takes all of it in, or refuses it as a whole.
pub fn plan_sheet(facts: Vec<Fact>, sheet: &str, today: &str, limit: usize) -> (plan: Result<
    SheetPlan,
    Refusal,
>)
    ensures
        plan_result(plan) == sheet_merged(views(facts@), sheet@, today@, limit as nat),
{
    let list = match parse_sheet(sheet) {
        Err(e) => {
            return Err(e);
        },
        Ok(list) => list,
    };
    let ghost all = line_views(list@);
    if list.len() == 0 {
        return Err(Refusal::EmptySheet);
    }
    let ghost old_facts = views(facts@);
    let mut plan = SheetPlan {
        left: keep_latest(facts),
        kept: Vec::new(),
        fresh: Vec::new(),
        edited: 0,
    };
    let count = list.len();
    assert(plan@ =~= lines_merged(old_facts, all.take(0), today@, limit as nat)->Ok_0);
    for line in it: list.into_iter()
        invariant
            it.seq() == list@,
            all == line_views(list@),
            count == list@.len(),
            old_facts == views(facts@),
            plan.edited <= it.index(),
            lines_merged(old_facts, all.take(it.index() as int), today@, limit as nat) == Ok::<
                Merge,
                Reason,
            >(plan@),
            lines_parsed(fact_lines(sheet@)) == Ok::<Seq<SheetText>, Reason>(all),
            all.len() > 0,
    {
        let ghost i = it.index() as int;
        assert(line@ == all[i]);
        assert(all.take(i + 1).drop_last() =~= all.take(i));
        match merge_line(plan, line, today, limit) {
            Ok(next) => {
                plan = next;
            },
            Err(e) => {
                proof {
                    lemma_merge_stays_refused(old_facts, all, today@, limit as nat, i + 1);
                }
                return Err(e);
            },
        }
    }
    assert(all.take(all.len() as int) =~= all);
    Ok(plan)
}

/// What a sheet changed.
#[derive(Debug)]
pub struct Summary {
    pub added: usize,
    pub edited: usize,
    pub dropped: usize,
}

/// What is said when a sheet has been taken in.
pub open spec fn summary_text(added: nat, edited: nat, dropped: nat) -> Seq<char> {
    if added + edited + dropped == 0 {
        "no changes"@
    } else {
        "added "@ + decimal(added) + ", edited "@ + decimal(edited) + ", dropped "@ + decimal(
            dropped,
        )
    }
}

impl Summary {
    /// Whether the sheet changed anything.
    pub fn has_changes(&self) -> (changes: bool)
        ensures
            changes == (self.added + self.edited + self.dropped != 0),
    {
        self.added != 0 || self.edited != 0 || self.dropped != 0
    }

    /// What the sheet changed, in words.
    pub fn report(&self) -> (s: String)
        ensures
            s@ == summary_text(self.added as nat, self.edited as nat, self.dropped as nat),
    {
        if !self.has_changes() {
            return "no changes".to_owned();
        }
        let mut s = "added ".to_owned();
        push_number(&mut s, self.added as u128);
        s.append(", edited ");
        push_number(&mut s, self.edited as u128);
        s.append(", dropped ");
        push_number(&mut s, self.dropped as u128);
        s
    }
}

/// The fact that a line without id describes.
pub open spec fn fact_from_new_line(line: SheetText, id: Seq<char>, today: Seq<char>) -> FactText {
    FactText { id, text: line.text, check: line.check, tags: line.tags, ts: today }
}

/// The facts that a sheet keeps, followed by its new ones. Each new fact gets an id that none of
/// the facts before it has.
pub open spec fn with_fresh(
    kept: Seq<FactText>,
    fresh: Seq<SheetText>,
    today: Seq<char>,
    nanos: Seq<u64>,
    process: u32,
) -> Seq<FactText>
    decreases fresh.len(),
{
    if fresh.len() == 0 {
        kept
    } else {
        let before = with_fresh(kept, fresh.drop_last(), today, nanos, process);
        let id = free_id(before, seed_of(nanos[fresh.len() - 1], process));
        before.push(fact_from_new_line(fresh.last(), id, today))
    }
}

/// Gives the new facts their ids. `nanos` holds a reading of the clock for every one of them.
pub fn finish_sheet(plan: SheetPlan, today: &str, nanos: &[u64], process: u32) -> (done: (
    Vec<Fact>,
    Summary,
))
    requires
        nanos@.len() >= plan@.fresh.len(),
    ensures
        views(done.0@) == with_fresh(plan@.kept, plan@.fresh, today@, nanos@, process),
        done.1.added == plan@.fresh.len(),
        done.1.edited == plan@.edited,
        done.1.dropped == plan@.left.len(),
{
    let SheetPlan { left, kept, fresh, edited } = plan;
    let summary = Summary { added: fresh.len(), edited, dropped: left.len() };
    let mut facts = kept;
    let ghost start = views(facts@);
    let ghost all = line_views(fresh@);
    let count = fresh.len();
    let mut i: usize = 0;
    assert(all.take(0) =~= Seq::<SheetText>::empty());
    for line in it: fresh.into_iter()
        invariant
            it.seq() == fresh@,
            all == line_views(fresh@),
            count == fresh@.len(),
            count <= nanos@.len(),
            i == it.index(),
            views(facts@) == with_fresh(start, all.take(i as int), today@, nanos@, process),
    {
        assert(line@ == all[i as int]);
        assert(all.take(i + 1).drop_last() =~= all.take(i as int));
        let id = new_id(&facts, nanos[i], process);
        let f = Fact {
            id,
            text: line.text,
            check: line.check,
            tags: line.tags,
            ts: today.to_owned(),
        };
        assert(f@ == fact_from_new_line(line@, id@, today@));
        proof {
            lemma_views_push(facts@, f);
        }
        facts.push(f);
        i = i + 1;
    }
    assert(all.take(all.len() as int) =~= all);
    (facts, summary)
}

/// Applies a sheet to the facts: a fact that the sheet does not name is dropped, a fact that it
/// shows otherwise is edited, a line without id is added. The clock is read once for every new
/// fact.
pub fn apply_sheet(
    facts: Vec<Fact>,
    sheet: &str,
    today: &str,
    limit: usize,
    process: u32,
) -> (applied: Result<(Vec<Fact>, Summary), Refusal>)
    ensures
        match (applied, sheet_merged(views(facts@), sheet@, today@, limit as nat)) {
            (Ok((list, summary)), Ok(m)) => {
                &&& summary.added == m.fresh.len()
                &&& summary.edited == m.edited
                &&& summary.dropped == m.left.len()
                &&& exists|nanos: Seq<u64>|
                    nanos.len() == m.fresh.len() && views(list@) == #[trigger] with_fresh(
                        m.kept,
                        m.fresh,
                        today@,
                        nanos,
                        process,
                    )
            },
            (Err(e), Err(reason)) => e@ == reason,
            _ => false,
        },
{
    match plan_sheet(facts, sheet, today, limit) {
        Err(e) => Err(e),
        Ok(plan) => {
            let mut nanos: Vec<u64> = Vec::new();
            let count = plan.fresh.len();
            for i in 0..count
                invariant
                    nanos@.len() == i,
            {
                nanos.push(unix_now().low_nanos());
            }
            Ok(finish_sheet(plan, today, &nanos, process))
        },
    }
}

} // verus!
