//! How the sheet lays out the facts: in groups, each under a heading.

use vstd::prelude::*;

use crate::fact::{
    full_line, group_name, group_tag, is_reference, render, views, Fact, FactText,
};
use crate::order::{
    comes_before, lemma_before_irreflexive, lemma_before_total, lemma_before_transitive,
    text_before,
};
use crate::text::same;

verus! {

/// What stands at the top of the sheet: how a line is written.
pub const HELP_FORM: &'static str =
    "# factsheet curate. One fact per line: [id] text | check: cmd  #tag #tag  (date)";

/// What stands at the top of the sheet: what a change of the lines does.
pub const HELP_CHANGES: &'static str =
    "# delete a line = drop | change text, check or tags = edit | new line without [id] = add";

/// What stands at the top of the sheet: what is left out of account.
pub const HELP_IGNORED: &'static str =
    "# lines starting with # and the (date) are ignored | empty sheet = abort";

/// A group of facts: whether they are reference facts, and their tag.
#[derive(Debug)]
pub struct Group {
    pub is_ref: bool,
    pub tag: String,
}

#[verifier::ext_equal]
pub struct GroupKey {
    pub is_ref: bool,
    pub tag: Seq<char>,
}

impl View for Group {
    type V = GroupKey;

    open spec fn view(&self) -> GroupKey {
        GroupKey { is_ref: self.is_ref, tag: self.tag@ }
    }
}

pub open spec fn group_views(groups: Seq<Group>) -> Seq<GroupKey> {
    groups.map_values(|g: Group| g@)
}

/// The group of a fact.
pub open spec fn group_of(f: FactText) -> GroupKey {
    GroupKey { is_ref: is_reference(f), tag: group_name(f) }
}

/// The order of groups: reference facts last, then by tag.
pub open spec fn group_before(a: GroupKey, b: GroupKey) -> bool {
    (!a.is_ref && b.is_ref) || (a.is_ref == b.is_ref && text_before(a.tag, b.tag))
}

/// A list of groups in their order, with one more group unless it is there.
pub open spec fn group_inserted(groups: Seq<GroupKey>, g: GroupKey) -> Seq<GroupKey>
    decreases groups.len(),
{
    if groups.len() == 0 {
        seq![g]
    } else if groups.last() == g {
        groups
    } else if group_before(groups.last(), g) {
        groups.push(g)
    } else {
        group_inserted(groups.drop_last(), g).push(groups.last())
    }
}

/// The groups of the facts, in their order.
pub open spec fn groups_of(facts: Seq<FactText>) -> Seq<GroupKey>
    decreases facts.len(),
{
    if facts.len() == 0 {
        Seq::empty()
    } else {
        group_inserted(groups_of(facts.drop_last()), group_of(facts.last()))
    }
}

/// The facts of a group.
pub open spec fn in_group(g: GroupKey) -> spec_fn(FactText) -> bool {
    |f: FactText| group_of(f) == g
}

/// The heading of a group.
pub open spec fn heading(g: GroupKey) -> Seq<char> {
    if !g.is_ref {
        "# "@ + g.tag
    } else if g.tag.len() == 0 {
        "# ref"@
    } else {
        "# ref: "@ + g.tag
    }
}

/// The lines of the facts, each with its end.
pub open spec fn fact_block(facts: Seq<FactText>) -> Seq<char>
    decreases facts.len(),
{
    if facts.len() == 0 {
        Seq::empty()
    } else {
        fact_block(facts.drop_last()) + full_line(facts.last()) + "\n"@
    }
}

/// The part of the sheet for a group: an empty line, the heading, and its facts.
pub open spec fn section(facts: Seq<FactText>, g: GroupKey) -> Seq<char> {
    "\n"@ + heading(g) + "\n"@ + fact_block(facts.filter(in_group(g)))
}

pub open spec fn sections(facts: Seq<FactText>, groups: Seq<GroupKey>) -> Seq<char>
    decreases groups.len(),
{
    if groups.len() == 0 {
        Seq::empty()
    } else {
        sections(facts, groups.drop_last()) + section(facts, groups.last())
    }
}

/// The lines at the top of the sheet.
pub open spec fn help_text() -> Seq<char> {
    HELP_FORM@ + "\n"@ + HELP_CHANGES@ + "\n"@ + HELP_IGNORED@ + "\n"@
}

/// The sheet: the help, and then a section for every group.
pub open spec fn sheet_text(facts: Seq<FactText>) -> Seq<char> {
    help_text() + sections(facts, groups_of(facts))
}

fn same_group(a: &Group, b: &Group) -> (equal: bool)
    ensures
        equal == (a@ == b@),
{
    a.is_ref == b.is_ref && same(&a.tag, &b.tag)
}

fn goes_before(a: &Group, b: &Group) -> (before: bool)
    ensures
        before == group_before(a@, b@),
{
    (!a.is_ref && b.is_ref) || (a.is_ref == b.is_ref && comes_before(&a.tag, &b.tag))
}

fn insert_group(groups: &mut Vec<Group>, g: Group)
    ensures
        group_views(final(groups)@) == group_inserted(group_views(old(groups)@), g@),
{
    let ghost all = group_views(groups@);
    let mut i: usize = groups.len();
    assert(all.skip(i as int) =~= Seq::<GroupKey>::empty());
    assert(all.take(i as int) =~= all);
    assert(group_inserted(all, g@) =~= group_inserted(all.take(i as int), g@) + all.skip(i as int));
    while i > 0 && !same_group(&groups[i - 1], &g) && !goes_before(&groups[i - 1], &g)
        invariant
            i <= groups@.len(),
            all == group_views(groups@),
            group_inserted(all, g@) == group_inserted(all.take(i as int), g@) + all.skip(i as int),
        decreases i,
    {
        let ghost t = all.take(i as int);
        assert(t.last() == all[i - 1]);
        assert(t.drop_last() =~= all.take(i - 1));
        assert(all.skip(i - 1) =~= seq![all[i - 1]] + all.skip(i as int));
        assert(group_inserted(t, g@) + all.skip(i as int) =~= group_inserted(all.take(i - 1), g@)
            + all.skip(i - 1));
        i = i - 1;
    }
    if i > 0 && same_group(&groups[i - 1], &g) {
        assert(all.take(i as int).last() == g@);
        assert(all.take(i as int) + all.skip(i as int) =~= all);
    } else {
        groups.insert(i, g);
        assert(group_views(groups@) =~= all.take(i as int).push(g@) + all.skip(i as int));
        if i > 0 {
            assert(all.take(i as int).last() == all[i - 1]);
        } else {
            assert(all.take(0).push(g@) =~= seq![g@]);
        }
    }
}

fn group(f: &Fact) -> (g: Group)
    ensures
        g@ == group_of(f@),
{
    Group { is_ref: f.is_ref(), tag: group_tag(f) }
}

fn push_heading(out: &mut String, g: &Group)
    ensures
        final(out)@ == old(out)@ + heading(g@),
{
    if !g.is_ref {
        out.append("# ");
        out.append(&g.tag);
        assert(out@ =~= old(out)@ + heading(g@));
    } else if g.tag.as_str().is_empty() {
        out.append("# ref");
    } else {
        out.append("# ref: ");
        out.append(&g.tag);
        assert(out@ =~= old(out)@ + heading(g@));
    }
}

fn push_group(out: &mut String, facts: &[Fact], g: &Group)
    ensures
        final(out)@ == old(out)@ + fact_block(views(facts@).filter(in_group(g@))),
{
    let ghost all = views(facts@);
    proof {
        reveal(Seq::filter);
    }
    assert(out@ =~= old(out)@ + fact_block(all.take(0).filter(in_group(g@))));
    for i in 0..facts.len()
        invariant
            all == views(facts@),
            out@ == old(out)@ + fact_block(all.take(i as int).filter(in_group(g@))),
    {
        let ghost before = all.take(i as int).filter(in_group(g@));
        let ghost after = all.take(i + 1).filter(in_group(g@));
        assert(all.take(i + 1).drop_last() =~= all.take(i as int));
        proof {
            reveal(Seq::filter);
        }
        if same_group(&group(&facts[i]), g) {
            assert(after =~= before.push(facts@[i as int]@));
            assert(after.drop_last() =~= before);
            let line = render(&facts[i]);
            out.append(&line);
            out.append("\n");
            assert(out@ =~= old(out)@ + fact_block(after));
        } else {
            assert(after =~= before);
        }
    }
    assert(all.take(all.len() as int) =~= all);
}

fn push_section(out: &mut String, facts: &[Fact], g: &Group)
    ensures
        final(out)@ == old(out)@ + section(views(facts@), g@),
{
    out.append("\n");
    push_heading(out, g);
    out.append("\n");
    push_group(out, facts, g);
    assert(out@ =~= old(out)@ + section(views(facts@), g@));
}

/// The sheet that shows all facts: facts for every session first, then reference facts, each
/// fact once, under its first tag.
pub fn render_sheet(facts: &[Fact]) -> (sheet: String)
    ensures
        sheet@ == sheet_text(views(facts@)),
{
    let ghost all = views(facts@);
    let mut groups: Vec<Group> = Vec::new();
    assert(group_views(groups@) =~= groups_of(all.take(0)));
    for i in 0..facts.len()
        invariant
            all == views(facts@),
            group_views(groups@) == groups_of(all.take(i as int)),
    {
        assert(all.take(i + 1).drop_last() =~= all.take(i as int));
        insert_group(&mut groups, group(&facts[i]));
    }
    assert(all.take(all.len() as int) =~= all);
    let mut out = HELP_FORM.to_owned();
    out.append("\n");
    out.append(HELP_CHANGES);
    out.append("\n");
    out.append(HELP_IGNORED);
    out.append("\n");
    let ghost keys = group_views(groups@);
    let ghost top = out@;
    assert(out@ =~= top + sections(all, keys.take(0)));
    for i in 0..groups.len()
        invariant
            all == views(facts@),
            keys == group_views(groups@),
            out@ == top + sections(all, keys.take(i as int)),
    {
        assert(keys.take(i + 1).drop_last() =~= keys.take(i as int));
        push_section(&mut out, facts, &groups[i]);
        assert(out@ =~= top + sections(all, keys.take(i + 1)));
    }
    assert(keys.take(keys.len() as int) =~= keys);
    out
}

// ---- the order of the groups ----

/// Whether every group comes before those behind it.
pub open spec fn groups_in_order(groups: Seq<GroupKey>) -> bool {
    forall|i: int, j: int|
        0 <= i < j < groups.len() ==> group_before(#[trigger] groups[i], #[trigger] groups[j])
}

proof fn lemma_group_transitive(a: GroupKey, b: GroupKey, c: GroupKey)
    requires
        group_before(a, b),
        group_before(b, c),
    ensures
        group_before(a, c),
{
    if a.is_ref == b.is_ref && b.is_ref == c.is_ref {
        lemma_before_transitive(a.tag, b.tag, c.tag);
    }
}

proof fn lemma_group_total(a: GroupKey, b: GroupKey)
    ensures
        a == b || group_before(a, b) || group_before(b, a),
{
    lemma_before_total(a.tag, b.tag);
}

proof fn lemma_group_inserted(groups: Seq<GroupKey>, g: GroupKey)
    requires
        groups_in_order(groups),
    ensures
        groups_in_order(group_inserted(groups, g)),
        group_inserted(groups, g).contains(g),
        forall|x: GroupKey| #[trigger]
            group_inserted(groups, g).contains(x) <==> x == g || groups.contains(x),
    decreases groups.len(),
{
    let after = group_inserted(groups, g);
    if groups.len() == 0 {
        assert(after[0] == g);
    } else if groups.last() == g {
        assert(groups[groups.len() - 1] == g);
    } else if group_before(groups.last(), g) {
        assert(after[groups.len() as int] == g);
        assert forall|i: int, j: int| 0 <= i < j < after.len() implies group_before(
            #[trigger] after[i],
            #[trigger] after[j],
        ) by {
            if j == groups.len() && i < groups.len() - 1 {
                assert(group_before(groups[i], groups[groups.len() - 1]));
                lemma_group_transitive(groups[i], groups.last(), g);
            }
        }
        assert forall|x: GroupKey| #[trigger] after.contains(x) <==> x == g || groups.contains(
            x,
        ) by {
            if groups.contains(x) {
                let i = choose|i: int| 0 <= i < groups.len() && groups[i] == x;
                assert(after[i] == x);
            }
        }
    } else {
        let shorter = groups.drop_last();
        let inner = group_inserted(shorter, g);
        let last = groups.last();
        assert(forall|i: int| 0 <= i < shorter.len() ==> #[trigger] shorter[i] == groups[i]);
        lemma_group_inserted(shorter, g);
        lemma_group_total(last, g);
        assert forall|i: int, j: int| 0 <= i < j < after.len() implies group_before(
            #[trigger] after[i],
            #[trigger] after[j],
        ) by {
            if j == inner.len() {
                assert(inner.contains(after[i]));
                if after[i] != g {
                    let k = choose|k: int| 0 <= k < shorter.len() && shorter[k] == after[i];
                    assert(group_before(groups[k], groups[groups.len() - 1]));
                }
            }
        }
        assert forall|x: GroupKey| #[trigger] after.contains(x) <==> x == g || groups.contains(
            x,
        ) by {
            if after.contains(x) {
                let i = choose|i: int| 0 <= i < after.len() && after[i] == x;
                if i < inner.len() {
                    assert(inner.contains(x));
                    if x != g {
                        let k = choose|k: int| 0 <= k < shorter.len() && shorter[k] == x;
                        assert(groups[k] == x);
                    }
                } else {
                    assert(groups[groups.len() - 1] == x);
                }
            }
            if x == g || groups.contains(x) {
                if x != last {
                    if x != g {
                        let k = choose|k: int| 0 <= k < groups.len() && groups[k] == x;
                        assert(shorter[k] == x);
                    }
                    assert(inner.contains(x));
                    let i = choose|i: int| 0 <= i < inner.len() && inner[i] == x;
                    assert(after[i] == x);
                } else {
                    assert(after[after.len() - 1] == x);
                }
            }
        }
        assert(after.contains(g));
    }
}

/// The groups of the sheet are those of the facts, each once and in order: the facts for every
/// session first, the reference facts behind them, and both by their tags.
pub proof fn law_groups_in_order(facts: Seq<FactText>)
    ensures
        groups_in_order(groups_of(facts)),
        groups_of(facts).no_duplicates(),
        forall|g: GroupKey| #[trigger]
            groups_of(facts).contains(g) <==> exists|i: int|
                0 <= i < facts.len() && group_of(#[trigger] facts[i]) == g,
    decreases facts.len(),
{
    let groups = groups_of(facts);
    if facts.len() > 0 {
        let shorter = facts.drop_last();
        law_groups_in_order(shorter);
        lemma_group_inserted(groups_of(shorter), group_of(facts.last()));
        assert(forall|i: int| 0 <= i < shorter.len() ==> #[trigger] shorter[i] == facts[i]);
        assert forall|g: GroupKey| #[trigger]
            groups.contains(g) <==> exists|i: int|
                0 <= i < facts.len() && group_of(#[trigger] facts[i]) == g by {
            if groups.contains(g) {
                if g == group_of(facts.last()) {
                    assert(group_of(facts[facts.len() - 1]) == g);
                } else {
                    assert(groups_of(shorter).contains(g));
                    let i = choose|i: int|
                        0 <= i < shorter.len() && group_of(#[trigger] shorter[i]) == g;
                    assert(group_of(facts[i]) == g);
                }
            }
            if exists|i: int| 0 <= i < facts.len() && group_of(#[trigger] facts[i]) == g {
                let i = choose|i: int| 0 <= i < facts.len() && group_of(#[trigger] facts[i]) == g;
                if i < shorter.len() {
                    assert(group_of(shorter[i]) == g);
                    assert(groups_of(shorter).contains(g));
                }
            }
        }
    }
    assert forall|i: int, j: int|
        0 <= i < groups.len() && 0 <= j < groups.len() && i != j implies groups[i] != groups[j] by {
        lemma_before_irreflexive(groups[i].tag);
        if i < j {
            assert(group_before(groups[i], groups[j]));
        } else {
            assert(group_before(groups[j], groups[i]));
        }
    }
}

/// The facts of the given groups, one group after the other.
pub open spec fn in_groups(facts: Seq<FactText>, groups: Seq<GroupKey>) -> Seq<FactText>
    decreases groups.len(),
{
    if groups.len() == 0 {
        Seq::empty()
    } else {
        in_groups(facts, groups.drop_last()) + facts.filter(in_group(groups.last()))
    }
}

/// The facts in the order of the sheet.
pub open spec fn sheet_order(facts: Seq<FactText>) -> Seq<FactText> {
    in_groups(facts, groups_of(facts))
}

proof fn lemma_filter_count(facts: Seq<FactText>, p: spec_fn(FactText) -> bool, f: FactText)
    ensures
        facts.filter(p).to_multiset().count(f) == if p(f) {
            facts.to_multiset().count(f)
        } else {
            0
        },
    decreases facts.len(),
{
    broadcast use vstd::seq_lib::group_to_multiset_ensures;

    reveal(Seq::filter);
    if facts.len() == 0 {
        assert(facts.filter(p) =~= Seq::<FactText>::empty());
        assert(facts =~= Seq::<FactText>::empty());
        assert(!Seq::<FactText>::empty().contains(f));
    } else {
        let shorter = facts.drop_last();
        lemma_filter_count(shorter, p, f);
        assert(facts =~= shorter.push(facts.last()));
    }
}

proof fn lemma_in_groups_count(facts: Seq<FactText>, groups: Seq<GroupKey>, f: FactText)
    requires
        groups.no_duplicates(),
    ensures
        in_groups(facts, groups).to_multiset().count(f) == if groups.contains(group_of(f)) {
            facts.to_multiset().count(f)
        } else {
            0
        },
    decreases groups.len(),
{
    broadcast use vstd::seq_lib::group_to_multiset_ensures;

    if groups.len() == 0 {
        assert(!Seq::<FactText>::empty().contains(f));
    } else {
        let shorter = groups.drop_last();
        let last = groups.last();
        assert(forall|i: int| 0 <= i < shorter.len() ==> #[trigger] shorter[i] == groups[i]);
        lemma_in_groups_count(facts, shorter, f);
        lemma_filter_count(facts, in_group(last), f);
        vstd::seq_lib::lemma_multiset_commutative(
            in_groups(facts, shorter),
            facts.filter(in_group(last)),
        );
        if group_of(f) == last {
            assert(groups[groups.len() - 1] == group_of(f));
            if shorter.contains(last) {
                let k = choose|k: int| 0 <= k < shorter.len() && shorter[k] == last;
                assert(groups[k] == groups[groups.len() - 1]);
            }
        } else if groups.contains(group_of(f)) {
            let k = choose|k: int| 0 <= k < groups.len() && groups[k] == group_of(f);
            assert(shorter[k] == group_of(f));
        } else if shorter.contains(group_of(f)) {
            let k = choose|k: int| 0 <= k < shorter.len() && shorter[k] == group_of(f);
            assert(groups[k] == group_of(f));
        }
    }
}

/// The sheet shows every fact once: its order is a rearrangement of the facts.
pub proof fn law_sheet_shows_all(facts: Seq<FactText>)
    ensures
        sheet_order(facts).to_multiset() == facts.to_multiset(),
{
    broadcast use vstd::seq_lib::group_to_multiset_ensures;

    law_groups_in_order(facts);
    assert forall|f: FactText| sheet_order(facts).to_multiset().count(f)
        == facts.to_multiset().count(f) by {
        lemma_in_groups_count(facts, groups_of(facts), f);
        if facts.to_multiset().count(f) > 0 {
            assert(facts.contains(f));
            let i = choose|i: int| 0 <= i < facts.len() && facts[i] == f;
            assert(group_of(facts[i]) == group_of(f));
        }
    }
    assert(sheet_order(facts).to_multiset() =~= facts.to_multiset());
}

} // verus!
