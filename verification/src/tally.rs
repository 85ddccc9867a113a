//! How many facts carry which tag.

use vstd::prelude::*;

use crate::fact::{views, Fact, FactText};
use crate::number::{decimal, push_number};
use crate::order::{
    comes_before, lemma_before_irreflexive, lemma_before_total, lemma_before_transitive,
    text_before,
};
use crate::text::{join, joined, lemma_texts_push, same, texts};

verus! {

/// The contents of a list of tags with their counts.
pub open spec fn count_views(counts: Seq<(String, u128)>) -> Seq<(Seq<char>, nat)> {
    counts.map_values(|c: (String, u128)| (c.0@, c.1 as nat))
}

/// A list of tags with their counts, in the order of the tags, after one more occurrence of a
/// tag.
pub open spec fn counted(counts: Seq<(Seq<char>, nat)>, tag: Seq<char>) -> Seq<(Seq<char>, nat)>
    decreases counts.len(),
{
    if counts.len() == 0 {
        seq![(tag, 1nat)]
    } else if counts.last().0 == tag {
        counts.drop_last().push((tag, counts.last().1 + 1))
    } else if text_before(counts.last().0, tag) {
        counts.push((tag, 1nat))
    } else {
        counted(counts.drop_last(), tag).push(counts.last())
    }
}

/// The different tags of a list, in their order, with their numbers of occurrences.
pub open spec fn tally(tags: Seq<Seq<char>>) -> Seq<(Seq<char>, nat)>
    decreases tags.len(),
{
    if tags.len() == 0 {
        Seq::empty()
    } else {
        counted(tally(tags.drop_last()), tags.last())
    }
}

/// The tags of the facts, one fact after the other.
pub open spec fn tags_of(facts: Seq<FactText>) -> Seq<Seq<char>>
    decreases facts.len(),
{
    if facts.len() == 0 {
        Seq::empty()
    } else {
        tags_of(facts.drop_last()) + facts.last().tags
    }
}

proof fn lemma_counted_bound(counts: Seq<(Seq<char>, nat)>, tag: Seq<char>, bound: nat)
    requires
        forall|i: int| 0 <= i < counts.len() ==> (#[trigger] counts[i]).1 <= bound,
    ensures
        forall|i: int|
            0 <= i < counted(counts, tag).len() ==> (#[trigger] counted(counts, tag)[i]).1 <= bound
                + 1,
    decreases counts.len(),
{
    if counts.len() > 0 {
        let shorter = counts.drop_last();
        assert(forall|i: int| 0 <= i < shorter.len() ==> #[trigger] shorter[i] == counts[i]);
        assert(counts[counts.len() - 1].1 <= bound);
        lemma_counted_bound(shorter, tag, bound);
        let after = counted(counts, tag);
        assert forall|i: int| 0 <= i < after.len() implies (#[trigger] after[i]).1 <= bound + 1 by {
            if counts.last().0 != tag && !text_before(counts.last().0, tag) {
                if i < after.len() - 1 {
                    assert(after[i] == counted(shorter, tag)[i]);
                }
            } else if i < shorter.len() {
                assert(after[i] == counts[i]);
            }
        }
    }
}

proof fn lemma_tally_bound(tags: Seq<Seq<char>>)
    ensures
        forall|i: int| 0 <= i < tally(tags).len() ==> (#[trigger] tally(tags)[i]).1 <= tags.len(),
    decreases tags.len(),
{
    if tags.len() > 0 {
        lemma_tally_bound(tags.drop_last());
        lemma_counted_bound(tally(tags.drop_last()), tags.last(), (tags.len() - 1) as nat);
    }
}

fn count(counts: &mut Vec<(String, u128)>, tag: &str)
    requires
        forall|i: int|
            0 <= i < count_views(old(counts)@).len() ==> (#[trigger] count_views(
                old(counts)@,
            )[i]).1 < u128::MAX,
    ensures
        count_views(final(counts)@) == counted(count_views(old(counts)@), tag@),
{
    let ghost all = count_views(counts@);
    let mut i: usize = counts.len();
    assert(all.skip(i as int) =~= Seq::<(Seq<char>, nat)>::empty());
    assert(all.take(i as int) =~= all);
    assert(counted(all, tag@) =~= counted(all.take(i as int), tag@) + all.skip(i as int));
    while i > 0 && !same(&counts[i - 1].0, tag) && !comes_before(&counts[i - 1].0, tag)
        invariant
            i <= counts@.len(),
            all == count_views(counts@),
            counted(all, tag@) == counted(all.take(i as int), tag@) + all.skip(i as int),
        decreases i,
    {
        let ghost t = all.take(i as int);
        assert(t.last() == all[i - 1]);
        assert(t.drop_last() =~= all.take(i - 1));
        assert(all.skip(i - 1) =~= seq![all[i - 1]] + all.skip(i as int));
        assert(counted(t, tag@) + all.skip(i as int) =~= counted(all.take(i - 1), tag@) + all.skip(
            i - 1,
        ));
        i = i - 1;
    }
    if i > 0 && same(&counts[i - 1].0, tag) {
        assert(all.take(i as int).last() == all[i - 1]);
        assert(all[i - 1].1 < u128::MAX);
        let n = counts[i - 1].1;
        counts[i - 1] = (tag.to_owned(), n + 1);
        assert(count_views(counts@) =~= all.take(i as int).drop_last().push((tag@, (n + 1) as nat))
            + all.skip(i as int));
    } else {
        counts.insert(i, (tag.to_owned(), 1));
        assert(count_views(counts@) =~= all.take(i as int).push((tag@, 1nat)) + all.skip(i as int));
        if i > 0 {
            assert(all.take(i as int).last() == all[i - 1]);
        } else {
            assert(all.take(0).push((tag@, 1nat)) =~= seq![(tag@, 1nat)]);
        }
    }
}

/// The tags of the facts, in their order, with their numbers of occurrences.
pub fn tag_counts(facts: &[Fact]) -> (counts: Vec<(String, u128)>)
    ensures
        count_views(counts@) == tally(tags_of(views(facts@))),
{
    let ghost all = views(facts@);
    let mut counts: Vec<(String, u128)> = Vec::new();
    assert(count_views(counts@) =~= tally(tags_of(all.take(0))));
    for i in 0..facts.len()
        invariant
            all == views(facts@),
            count_views(counts@) == tally(tags_of(all.take(i as int))),
            tags_of(all.take(i as int)).len() <= i * 0xffff_ffff_ffff_ffff,
    {
        let ghost before = tags_of(all.take(i as int));
        let ghost tags = all[i as int].tags;
        assert(all.take(i + 1).drop_last() =~= all.take(i as int));
        assert(before + tags.take(0) =~= before);
        let n = facts[i].tags.len();
        for j in 0..n
            invariant
                all == views(facts@),
                0 <= i < facts.len(),
                n == facts@[i as int].tags@.len(),
                tags == all[i as int].tags,
                before.len() <= i * 0xffff_ffff_ffff_ffff,
                count_views(counts@) == tally(before + tags.take(j as int)),
        {
            let ghost seen = before + tags.take(j as int);
            assert((before + tags.take(j + 1)).drop_last() =~= seen);
            assert((before + tags.take(j + 1)).last() == tags[j as int]);
            proof {
                lemma_tally_bound(seen);
                assert(i * 0xffff_ffff_ffff_ffff <= 0xffff_ffff_ffff_ffff * 0xffff_ffff_ffff_ffff)
                    by (nonlinear_arith)
                    requires
                        i <= 0xffff_ffff_ffff_ffff,
                ;
            }
            count(&mut counts, &facts[i].tags[j]);
        }
        assert(tags.take(tags.len() as int) =~= tags);
        assert((i + 1) * 0xffff_ffff_ffff_ffff == i * 0xffff_ffff_ffff_ffff
            + 0xffff_ffff_ffff_ffff) by (nonlinear_arith);
    }
    assert(all.take(all.len() as int) =~= all);
    counts
}

/// A tag and its count as the user reads them.
pub open spec fn count_text(c: (Seq<char>, nat)) -> Seq<char> {
    "#"@ + c.0 + " "@ + decimal(c.1)
}

pub open spec fn count_texts(counts: Seq<(Seq<char>, nat)>) -> Seq<Seq<char>> {
    counts.map_values(|c: (Seq<char>, nat)| count_text(c))
}

fn count_lines(counts: &[(String, u128)]) -> (list: Vec<String>)
    ensures
        texts(list@) == count_texts(count_views(counts@)),
{
    let ghost all = count_texts(count_views(counts@));
    let mut list: Vec<String> = Vec::new();
    for i in 0..counts.len()
        invariant
            all == count_texts(count_views(counts@)),
            texts(list@) == all.take(i as int),
    {
        let mut s = "#".to_owned();
        s.append(&counts[i].0);
        s.append(" ");
        push_number(&mut s, counts[i].1);
        assert(s@ =~= all[i as int]);
        proof {
            lemma_texts_push(list@, s);
        }
        list.push(s);
        assert(all.take(i + 1) =~= all.take(i as int).push(all[i as int]));
    }
    assert(all.take(all.len() as int) =~= all);
    list
}

/// The lines that list the tags with their counts.
pub fn tags(facts: &[Fact]) -> (list: Vec<String>)
    ensures
        texts(list@) == count_texts(tally(tags_of(views(facts@)))),
{
    let counts = tag_counts(facts);
    count_lines(&counts)
}

pub open spec fn not_ref_count() -> spec_fn((Seq<char>, nat)) -> bool {
    |c: (Seq<char>, nat)| c.0 != "ref"@
}

/// What the session says of the reference facts that it leaves out.
pub open spec fn ref_note(refs: Seq<FactText>) -> Seq<char> {
    let counts = tally(tags_of(refs)).filter(not_ref_count());
    if counts.len() == 0 {
        "ref: "@ + decimal(refs.len()) + " facts, pull with `factsheet ls -t ref`"@
    } else {
        "ref: pull with `factsheet ls -t <tag>` | "@ + joined(count_texts(counts), " "@)
    }
}

fn without_ref(counts: Vec<(String, u128)>) -> (rest: Vec<(String, u128)>)
    ensures
        count_views(rest@) == count_views(counts@).filter(not_ref_count()),
{
    let ghost all = count_views(counts@);
    let mut rest: Vec<(String, u128)> = Vec::new();
    proof {
        reveal(Seq::filter);
    }
    assert(count_views(rest@) =~= all.take(0).filter(not_ref_count()));
    for i in 0..counts.len()
        invariant
            all == count_views(counts@),
            count_views(rest@) == all.take(i as int).filter(not_ref_count()),
    {
        assert(all.take(i + 1).drop_last() =~= all.take(i as int));
        proof {
            reveal(Seq::filter);
        }
        if !same(&counts[i].0, "ref") {
            let c = (counts[i].0.clone(), counts[i].1);
            let ghost before = rest@;
            rest.push(c);
            assert(count_views(rest@) =~= count_views(before).push((c.0@, c.1 as nat)));
        }
    }
    assert(all.take(all.len() as int) =~= all);
    rest
}

/// The footer about the reference facts that the session leaves out: how often their other tags
/// occur.
pub fn ref_footer(refs: &[Fact]) -> (line: String)
    ensures
        line@ == ref_note(views(refs@)),
{
    let counts = without_ref(tag_counts(refs));
    if counts.len() == 0 {
        let mut line = "ref: ".to_owned();
        push_number(&mut line, refs.len() as u128);
        line.append(" facts, pull with `factsheet ls -t ref`");
        line
    } else {
        let list = count_lines(&counts);
        let mut line = "ref: pull with `factsheet ls -t <tag>` | ".to_owned();
        let breakdown = join(&list, " ");
        line.append(&breakdown);
        line
    }
}

// ---- what the counts are ----

/// The number of times a tag occurs.
pub open spec fn occurrences(tags: Seq<Seq<char>>, tag: Seq<char>) -> nat
    decreases tags.len(),
{
    if tags.len() == 0 {
        0
    } else {
        occurrences(tags.drop_last(), tag) + if tags.last() == tag {
            1nat
        } else {
            0nat
        }
    }
}

/// Whether the tags are in their order, each once.
pub open spec fn tags_in_order(counts: Seq<(Seq<char>, nat)>) -> bool {
    forall|i: int, j: int|
        0 <= i < j < counts.len() ==> text_before((#[trigger] counts[i]).0, (#[trigger] counts[j]).0)
}

/// The count of a tag; none if it is not listed.
pub open spec fn count_of(counts: Seq<(Seq<char>, nat)>, tag: Seq<char>) -> nat
    decreases counts.len(),
{
    if counts.len() == 0 {
        0
    } else if counts.last().0 == tag {
        counts.last().1
    } else {
        count_of(counts.drop_last(), tag)
    }
}

/// In a list where each tag stands once, the count of a tag is the number beside it.
proof fn lemma_count_of(counts: Seq<(Seq<char>, nat)>, tag: Seq<char>)
    requires
        tags_in_order(counts),
    ensures
        forall|i: int|
            0 <= i < counts.len() && (#[trigger] counts[i]).0 == tag ==> counts[i].1 == count_of(
                counts,
                tag,
            ),
        count_of(counts, tag) > 0 ==> exists|i: int|
            0 <= i < counts.len() && (#[trigger] counts[i]).0 == tag,
    decreases counts.len(),
{
    if counts.len() > 0 {
        let shorter = counts.drop_last();
        assert(forall|i: int| 0 <= i < shorter.len() ==> #[trigger] shorter[i] == counts[i]);
        lemma_count_of(shorter, tag);
        assert forall|i: int|
            0 <= i < counts.len() && (#[trigger] counts[i]).0 == tag implies counts[i].1
            == count_of(counts, tag) by {
            if i < shorter.len() {
                lemma_before_irreflexive(tag);
                assert(text_before(counts[i].0, counts[counts.len() - 1].0));
                assert(shorter[i].0 == tag);
            }
        }
        if count_of(counts, tag) > 0 {
            if counts.last().0 == tag {
                assert(counts[counts.len() - 1].0 == tag);
            } else {
                let i = choose|i: int| 0 <= i < shorter.len() && (#[trigger] shorter[i]).0 == tag;
                assert(counts[i].0 == tag);
            }
        }
    }
}

proof fn lemma_counted(counts: Seq<(Seq<char>, nat)>, tag: Seq<char>)
    requires
        tags_in_order(counts),
        forall|i: int| 0 <= i < counts.len() ==> (#[trigger] counts[i]).1 > 0,
    ensures
        tags_in_order(counted(counts, tag)),
        forall|i: int| 0 <= i < counted(counts, tag).len() ==> (#[trigger] counted(counts, tag)[i]).1 > 0,
        forall|i: int|
            0 <= i < counted(counts, tag).len() ==> (#[trigger] counted(counts, tag)[i]).0 == tag
                || exists|k: int|
                0 <= k < counts.len() && (#[trigger] counts[k]).0 == counted(counts, tag)[i].0,
        forall|t: Seq<char>| #[trigger]
            count_of(counted(counts, tag), t) == count_of(counts, t) + if t == tag {
                1nat
            } else {
                0nat
            },
    decreases counts.len(),
{
    let after = counted(counts, tag);
    if counts.len() == 0 {
        assert(after.drop_last() =~= counts);
        assert(forall|t: Seq<char>| t != tag ==> count_of(after, t) == count_of(counts, t));
    } else {
        let shorter = counts.drop_last();
        let last = counts.last();
        assert(forall|i: int| 0 <= i < shorter.len() ==> #[trigger] shorter[i] == counts[i]);
        assert(counts[counts.len() - 1] == last);
        if last.0 == tag {
            assert(after.drop_last() =~= shorter);
            assert(forall|t: Seq<char>| t != tag ==> count_of(after, t) == count_of(shorter, t));
            assert(forall|i: int| 0 <= i < after.len() ==> (#[trigger] after[i]).0 == counts[i].0);
        } else if text_before(last.0, tag) {
            assert(after.drop_last() =~= counts);
            assert forall|i: int, j: int| 0 <= i < j < after.len() implies text_before(
                (#[trigger] after[i]).0,
                (#[trigger] after[j]).0,
            ) by {
                if j == counts.len() && i < counts.len() - 1 {
                    assert(text_before(counts[i].0, counts[counts.len() - 1].0));
                    lemma_before_transitive(counts[i].0, last.0, tag);
                }
            }
            assert forall|t: Seq<char>| #[trigger]
                count_of(after, t) == count_of(counts, t) + if t == tag {
                    1nat
                } else {
                    0nat
                } by {
                if t == tag {
                    lemma_not_listed(counts, tag);
                }
            }
            assert forall|i: int| 0 <= i < after.len() implies (#[trigger] after[i]).0 == tag
                || exists|k: int| 0 <= k < counts.len() && (#[trigger] counts[k]).0 == after[i].0 by {
                if i < counts.len() {
                    assert(counts[i].0 == after[i].0);
                }
            }
        } else {
            let inner = counted(shorter, tag);
            lemma_counted(shorter, tag);
            lemma_before_total(last.0, tag);
            assert(after.drop_last() =~= inner);
            assert forall|t: Seq<char>| #[trigger]
                count_of(after, t) == count_of(counts, t) + if t == tag {
                    1nat
                } else {
                    0nat
                } by {
                assert(count_of(inner, t) == count_of(shorter, t) + if t == tag {
                    1nat
                } else {
                    0nat
                });
            }
            assert forall|i: int, j: int| 0 <= i < j < after.len() implies text_before(
                (#[trigger] after[i]).0,
                (#[trigger] after[j]).0,
            ) by {
                if j == inner.len() {
                    assert(after[i] == inner[i]);
                    if inner[i].0 != tag {
                        let k = choose|k: int|
                            0 <= k < shorter.len() && (#[trigger] shorter[k]).0 == inner[i].0;
                        assert(text_before(counts[k].0, counts[counts.len() - 1].0));
                    }
                } else {
                    assert(after[i] == inner[i] && after[j] == inner[j]);
                }
            }
            assert forall|i: int| 0 <= i < after.len() implies (#[trigger] after[i]).0 == tag
                || exists|k: int| 0 <= k < counts.len() && (#[trigger] counts[k]).0 == after[i].0 by {
                if i < inner.len() {
                    assert(after[i] == inner[i]);
                    if inner[i].0 != tag {
                        let k = choose|k: int|
                            0 <= k < shorter.len() && (#[trigger] shorter[k]).0 == inner[i].0;
                        assert(counts[k].0 == after[i].0);
                    }
                }
            }
            assert forall|i: int| 0 <= i < after.len() implies (#[trigger] after[i]).1 > 0 by {
                if i < inner.len() {
                    assert(after[i] == inner[i]);
                }
            }
        }
    }
}

/// A tag that comes after all that are listed is not listed.
proof fn lemma_not_listed(counts: Seq<(Seq<char>, nat)>, tag: Seq<char>)
    requires
        tags_in_order(counts),
        counts.len() > 0 ==> text_before(counts.last().0, tag),
    ensures
        count_of(counts, tag) == 0,
    decreases counts.len(),
{
    if counts.len() > 0 {
        lemma_before_irreflexive(tag);
        let shorter = counts.drop_last();
        assert(forall|i: int| 0 <= i < shorter.len() ==> #[trigger] shorter[i] == counts[i]);
        if shorter.len() > 0 {
            assert(text_before(counts[counts.len() - 2].0, counts[counts.len() - 1].0));
            lemma_before_transitive(shorter.last().0, counts.last().0, tag);
        }
        lemma_not_listed(shorter, tag);
    }
}

/// A tally lists the tags that occur, in their order and each once, with the number of times that
/// they occur.
pub proof fn law_tally(tags: Seq<Seq<char>>)
    ensures
        tags_in_order(tally(tags)),
        forall|i: int|
            0 <= i < tally(tags).len() ==> (#[trigger] tally(tags)[i]).1 == occurrences(
                tags,
                tally(tags)[i].0,
            ) && tally(tags)[i].1 > 0,
        forall|t: Seq<char>|
            occurrences(tags, t) > 0 ==> exists|i: int|
                0 <= i < tally(tags).len() && (#[trigger] tally(tags)[i]).0 == t,
{
    lemma_tally(tags);
    let counts = tally(tags);
    assert forall|i: int| 0 <= i < counts.len() implies (#[trigger] counts[i]).1 == occurrences(
        tags,
        counts[i].0,
    ) by {
        lemma_count_of(counts, counts[i].0);
        assert(count_of(counts, counts[i].0) == occurrences(tags, counts[i].0));
    }
    assert forall|t: Seq<char>| occurrences(tags, t) > 0 implies exists|i: int|
        0 <= i < counts.len() && (#[trigger] counts[i]).0 == t by {
        lemma_count_of(counts, t);
        assert(count_of(counts, t) == occurrences(tags, t));
    }
}

proof fn lemma_tally(tags: Seq<Seq<char>>)
    ensures
        tags_in_order(tally(tags)),
        forall|i: int| 0 <= i < tally(tags).len() ==> (#[trigger] tally(tags)[i]).1 > 0,
        forall|t: Seq<char>| #[trigger] count_of(tally(tags), t) == occurrences(tags, t),
    decreases tags.len(),
{
    if tags.len() > 0 {
        lemma_tally(tags.drop_last());
        lemma_counted(tally(tags.drop_last()), tags.last());
    }
}

pub open spec fn carries(tag: Seq<char>) -> spec_fn(FactText) -> bool {
    |f: FactText| f.tags.contains(tag)
}

proof fn lemma_occurrences_add(a: Seq<Seq<char>>, b: Seq<Seq<char>>, tag: Seq<char>)
    ensures
        occurrences(a + b, tag) == occurrences(a, tag) + occurrences(b, tag),
    decreases b.len(),
{
    if b.len() == 0 {
        assert(a + b =~= a);
    } else {
        assert((a + b).drop_last() =~= a + b.drop_last());
        lemma_occurrences_add(a, b.drop_last(), tag);
    }
}

proof fn lemma_occurrences_once(tags: Seq<Seq<char>>, tag: Seq<char>)
    requires
        tags.no_duplicates(),
    ensures
        occurrences(tags, tag) == if tags.contains(tag) {
            1nat
        } else {
            0nat
        },
    decreases tags.len(),
{
    if tags.len() > 0 {
        let shorter = tags.drop_last();
        lemma_occurrences_once(shorter, tag);
        if tags.last() == tag {
            assert(tags[tags.len() - 1] == tag);
            if shorter.contains(tag) {
                let k = choose|k: int| 0 <= k < shorter.len() && shorter[k] == tag;
                assert(tags[k] == tags[tags.len() - 1]);
            }
        } else {
            if tags.contains(tag) {
                let k = choose|k: int| 0 <= k < tags.len() && tags[k] == tag;
                assert(shorter[k] == tag);
            }
            if shorter.contains(tag) {
                let k = choose|k: int| 0 <= k < shorter.len() && shorter[k] == tag;
                assert(tags[k] == tag);
            }
        }
    }
}

/// The count of a tag is the number of facts that carry it: every tag counts once per fact.
pub proof fn law_tag_counts_facts(facts: Seq<FactText>, tag: Seq<char>)
    requires
        forall|i: int| 0 <= i < facts.len() ==> (#[trigger] facts[i]).tags.no_duplicates(),
    ensures
        occurrences(tags_of(facts), tag) == facts.filter(carries(tag)).len(),
    decreases facts.len(),
{
    reveal(Seq::filter);
    if facts.len() > 0 {
        let shorter = facts.drop_last();
        assert(forall|i: int| 0 <= i < shorter.len() ==> #[trigger] shorter[i] == facts[i]);
        law_tag_counts_facts(shorter, tag);
        assert(facts[facts.len() - 1].tags.no_duplicates());
        lemma_occurrences_add(tags_of(shorter), facts.last().tags, tag);
        lemma_occurrences_once(facts.last().tags, tag);
    }
}

} // verus!
