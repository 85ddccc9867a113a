//! How alike facts are, and which are most alike.

use vstd::prelude::*;

use crate::fact::{views, Fact, FactText};
use crate::words::{fact_words, law_words_finite, Words};

verus! {

/// The overlap of two sets of words: the words that they share, of the words of the smaller set.
#[derive(Clone, Copy, Debug)]
pub struct Overlap {
    pub shared: usize,
    /// The size of the smaller set, or 1 if that set is empty.
    pub of: usize,
}

/// An overlap as a fraction.
#[verifier::ext_equal]
pub struct Score {
    pub shared: nat,
    pub of: nat,
}

impl View for Overlap {
    type V = Score;

    open spec fn view(&self) -> Score {
        Score { shared: self.shared as nat, of: self.of as nat }
    }
}

/// The overlap coefficient: the share of the smaller set that is in both.
pub open spec fn score_of(a: Set<Seq<char>>, b: Set<Seq<char>>) -> Score {
    let smaller = if a.len() <= b.len() {
        a.len()
    } else {
        b.len()
    };
    if smaller == 0 {
        Score { shared: 0, of: 1 }
    } else {
        Score { shared: a.intersect(b).len(), of: smaller }
    }
}

/// Whether `a` is at least as large as `b`.
pub open spec fn score_reaches(a: Score, b: Score) -> bool {
    a.shared * b.of >= b.shared * a.of
}

/// Whether an overlap is one half or more: such facts are near-duplicates.
pub open spec fn is_near(s: Score) -> bool {
    2 * s.shared >= s.of
}

/// The overlap of two sets of words. With it a short query can match a long fact.
pub fn overlap(a: &Words, b: &Words) -> (o: Overlap)
    ensures
        o@ == score_of(a@, b@),
        0 < o.of,
        o.shared <= o.of,
{
    proof {
        law_words_finite(*a);
        law_words_finite(*b);
        law_overlap(a@, b@);
    }
    let m = a.len();
    let n = b.len();
    let smaller = if m <= n {
        m
    } else {
        n
    };
    if smaller == 0 {
        Overlap { shared: 0, of: 1 }
    } else {
        Overlap { shared: a.shared_with(b), of: smaller }
    }
}

impl Overlap {
    /// Whether this overlap is at least as large as `other`.
    pub fn reaches(&self, other: &Overlap) -> (hit: bool)
        ensures
            hit == score_reaches(self@, other@),
    {
        proof {
            lemma_product_bound(self.shared, other.of);
            lemma_product_bound(other.shared, self.of);
        }
        self.shared as u128 * other.of as u128 >= other.shared as u128 * self.of as u128
    }

    /// Whether this overlap is one half or more.
    pub fn near(&self) -> (hit: bool)
        ensures
            hit == is_near(self@),
    {
        2 * self.shared as u128 >= self.of as u128
    }
}

proof fn lemma_product_bound(a: usize, b: usize)
    ensures
        0 <= a as u128 * b as u128 <= u128::MAX,
{
    assert(a as u128 * b as u128 <= 0xffff_ffff_ffff_ffff * 0xffff_ffff_ffff_ffff)
        by (nonlinear_arith)
        requires
            a <= 0xffff_ffff_ffff_ffff,
            b <= 0xffff_ffff_ffff_ffff,
    ;
    assert(0 <= a as u128 * b as u128) by (nonlinear_arith);
}

// ---- lists by score ----

pub open spec fn scored<T>(list: Seq<(Overlap, T)>) -> Seq<(Score, T)> {
    list.map_values(|e: (Overlap, T)| (e.0@, e.1))
}

/// A list from the largest score down, with one more entry: behind those that score at least as
/// much.
pub open spec fn inserted<T>(list: Seq<(Score, T)>, entry: (Score, T)) -> Seq<(Score, T)>
    decreases list.len(),
{
    if list.len() == 0 || score_reaches(list.last().0, entry.0) {
        list.push(entry)
    } else {
        inserted(list.drop_last(), entry).push(list.last())
    }
}

pub fn insert_scored<T>(list: &mut Vec<(Overlap, T)>, entry: (Overlap, T))
    ensures
        scored(final(list)@) == inserted(scored(old(list)@), (entry.0@, entry.1)),
{
    let ghost all = scored(list@);
    let ghost e = (entry.0@, entry.1);
    let mut i: usize = list.len();
    assert(all.skip(i as int) =~= Seq::<(Score, T)>::empty());
    assert(all.take(i as int) =~= all);
    assert(inserted(all, e) =~= inserted(all.take(i as int), e) + all.skip(i as int));
    while i > 0 && !list[i - 1].0.reaches(&entry.0)
        invariant
            i <= list@.len(),
            all == scored(list@),
            e == (entry.0@, entry.1),
            inserted(all, e) == inserted(all.take(i as int), e) + all.skip(i as int),
        decreases i,
    {
        let ghost t = all.take(i as int);
        assert(t.last() == all[i - 1]);
        assert(t.drop_last() =~= all.take(i - 1));
        assert(all.skip(i - 1) =~= seq![all[i - 1]] + all.skip(i as int));
        assert(inserted(t, e) + all.skip(i as int) =~= inserted(all.take(i - 1), e) + all.skip(
            i - 1,
        ));
        i = i - 1;
    }
    if i > 0 {
        assert(all.take(i as int).last() == all[i - 1]);
    }
    list.insert(i, entry);
    assert(scored(list@) =~= all.take(i as int).push(e) + all.skip(i as int));
}

// ---- ranking ----

/// The facts that share a word with the query, by position, from the largest overlap down; of
/// equal overlaps the earlier fact comes first.
pub open spec fn ranking(facts: Seq<FactText>, query: Set<Seq<char>>) -> Seq<(Score, usize)>
    decreases facts.len(),
{
    if facts.len() == 0 {
        Seq::empty()
    } else {
        let before = ranking(facts.drop_last(), query);
        let score = score_of(query, fact_words(facts.last()));
        if score.shared > 0 {
            inserted(before, (score, (facts.len() - 1) as usize))
        } else {
            before
        }
    }
}

/// Ranks the facts by their overlap with a query.
pub fn rank_by_overlap(facts: &[Fact], query: &Words) -> (hits: Vec<(Overlap, usize)>)
    ensures
        scored(hits@) == ranking(views(facts@), query@),
        forall|i: int| 0 <= i < hits@.len() ==> (#[trigger] hits@[i]).1 < facts@.len(),
{
    let ghost all = views(facts@);
    let mut hits: Vec<(Overlap, usize)> = Vec::new();
    assert(scored(hits@) =~= ranking(all.take(0), query@));
    for i in 0..facts.len()
        invariant
            all == views(facts@),
            scored(hits@) == ranking(all.take(i as int), query@),
    {
        assert(all.take(i + 1).drop_last() =~= all.take(i as int));
        let words = facts[i].words();
        let score = overlap(query, &words);
        if score.shared > 0 {
            insert_scored(&mut hits, (score, i));
        }
    }
    assert(all.take(all.len() as int) =~= all);
    proof {
        lemma_ranking_positions(all, query@);
        assert forall|i: int| 0 <= i < hits@.len() implies (#[trigger] hits@[i]).1
            < facts@.len() by {
            assert(scored(hits@)[i].1 == hits@[i].1);
        }
    }
    hits
}

/// Inserting puts the entry in and moves nothing else.
pub proof fn lemma_inserted_entries<T>(list: Seq<(Score, T)>, entry: (Score, T))
    ensures
        inserted(list, entry).len() == list.len() + 1,
        forall|i: int|
            0 <= i < inserted(list, entry).len() ==> (#[trigger] inserted(list, entry)[i]) == entry
                || list.contains(inserted(list, entry)[i]),
        inserted(list, entry).contains(entry),
        forall|x: (Score, T)| list.contains(x) ==> #[trigger] inserted(list, entry).contains(x),
    decreases list.len(),
{
    let after = inserted(list, entry);
    if list.len() == 0 || score_reaches(list.last().0, entry.0) {
        assert(after[list.len() as int] == entry);
        assert forall|i: int| 0 <= i < after.len() implies (#[trigger] after[i]) == entry
            || list.contains(after[i]) by {
            if i < list.len() {
                assert(list[i] == after[i]);
            }
        }
        assert forall|x: (Score, T)| list.contains(x) implies #[trigger] after.contains(x) by {
            let i = choose|i: int| 0 <= i < list.len() && list[i] == x;
            assert(after[i] == x);
        }
    } else {
        let shorter = list.drop_last();
        let inner = inserted(shorter, entry);
        lemma_inserted_entries(shorter, entry);
        assert forall|i: int| 0 <= i < after.len() implies (#[trigger] after[i]) == entry
            || list.contains(after[i]) by {
            if i < inner.len() {
                assert(after[i] == inner[i]);
                if inner[i] != entry {
                    let j = choose|j: int| 0 <= j < shorter.len() && shorter[j] == inner[i];
                    assert(list[j] == after[i]);
                }
            } else {
                assert(list[list.len() - 1] == after[i]);
            }
        }
        let at = choose|j: int| 0 <= j < inner.len() && inner[j] == entry;
        assert(after[at] == entry);
        assert forall|x: (Score, T)| list.contains(x) implies #[trigger] after.contains(x) by {
            let i = choose|i: int| 0 <= i < list.len() && list[i] == x;
            if i < shorter.len() {
                assert(shorter[i] == x);
                assert(inner.contains(x));
                let j = choose|j: int| 0 <= j < inner.len() && inner[j] == x;
                assert(after[j] == x);
            } else {
                assert(after[after.len() - 1] == x);
            }
        }
    }
}

proof fn lemma_ranking_positions(facts: Seq<FactText>, query: Set<Seq<char>>)
    requires
        facts.len() <= usize::MAX,
    ensures
        forall|i: int|
            0 <= i < ranking(facts, query).len() ==> (#[trigger] ranking(facts, query)[i]).1
                < facts.len(),
    decreases facts.len(),
{
    if facts.len() > 0 {
        let before = ranking(facts.drop_last(), query);
        lemma_ranking_positions(facts.drop_last(), query);
        let score = score_of(query, fact_words(facts.last()));
        if score.shared > 0 {
            let entry = (score, (facts.len() - 1) as usize);
            lemma_inserted_entries(before, entry);
            let after = inserted(before, entry);
            assert forall|i: int| 0 <= i < after.len() implies (#[trigger] after[i]).1
                < facts.len() by {
                if after[i] != entry {
                    let j = choose|j: int| 0 <= j < before.len() && before[j] == after[i];
                    assert(before[j].1 < facts.len() - 1);
                }
            }
        }
    }
}

// ---- what an overlap is ----

/// An overlap is the same both ways, and at most the whole of the smaller set; a set of words
/// overlaps wholly with itself.
pub proof fn law_overlap(a: Set<Seq<char>>, b: Set<Seq<char>>)
    requires
        a.finite(),
        b.finite(),
    ensures
        score_of(a, b) == score_of(b, a),
        score_of(a, b).of > 0,
        score_of(a, b).shared <= score_of(a, b).of,
        score_of(a, b).shared > 0 <==> exists|w: Seq<char>| #[trigger] a.contains(w) && b.contains(w),
        a.len() > 0 ==> score_of(a, a).shared == score_of(a, a).of,
{
    let both = a.intersect(b);
    assert(both =~= b.intersect(a));
    vstd::set_lib::lemma_len_subset(both, a);
    vstd::set_lib::lemma_len_subset(both, b);
    assert(a.intersect(a) =~= a);
    if exists|w: Seq<char>| #[trigger] a.contains(w) && b.contains(w) {
        let w = choose|w: Seq<char>| #[trigger] a.contains(w) && b.contains(w);
        assert(both.contains(w));
        if both.len() == 0 {
            both.lemma_len0_is_empty();
        }
    } else if both.len() > 0 {
        let w = both.choose();
        assert(a.contains(w) && b.contains(w));
    }
}

pub proof fn lemma_words_finite(f: FactText)
    ensures
        fact_words(f).finite(),
{
    broadcast use vstd::seq_lib::seq_to_set_is_finite;

}

proof fn lemma_reaches_transitive(a: Score, b: Score, c: Score)
    requires
        score_reaches(a, b),
        score_reaches(b, c),
        b.of > 0,
    ensures
        score_reaches(a, c),
{
    let (p, q, r, s, t, u) = (a.shared, a.of, b.shared, b.of, c.shared, c.of);
    assert(p * u >= t * q) by (nonlinear_arith)
        requires
            p * s >= r * q,
            r * u >= t * s,
            s > 0,
            p >= 0,
            q >= 0,
            r >= 0,
            t >= 0,
            u >= 0,
    {
        assert(p * s * u >= r * q * u);
        assert(r * u * q >= t * s * q);
        assert(s * (p * u) >= s * (t * q));
    }
}

// ---- the order of a list by score ----

/// Whether the scores go down, or stay, from one entry to the next.
pub open spec fn in_score_order<T>(list: Seq<(Score, T)>) -> bool {
    forall|i: int, j: int|
        0 <= i < j < list.len() ==> score_reaches((#[trigger] list[i]).0, (#[trigger] list[j]).0)
}

pub open spec fn positive<T>(list: Seq<(Score, T)>) -> bool {
    forall|i: int| 0 <= i < list.len() ==> (#[trigger] list[i]).0.of > 0
}

pub proof fn lemma_inserted_order<T>(list: Seq<(Score, T)>, entry: (Score, T))
    requires
        in_score_order(list),
        positive(list),
        entry.0.of > 0,
    ensures
        in_score_order(inserted(list, entry)),
        positive(inserted(list, entry)),
    decreases list.len(),
{
    let after = inserted(list, entry);
    if list.len() == 0 {
    } else if score_reaches(list.last().0, entry.0) {
        assert forall|i: int, j: int| 0 <= i < j < after.len() implies score_reaches(
            (#[trigger] after[i]).0,
            (#[trigger] after[j]).0,
        ) by {
            if j == list.len() && i < list.len() - 1 {
                assert(score_reaches(list[i].0, list[list.len() - 1].0));
                assert(list[list.len() - 1].0.of > 0);
                lemma_reaches_transitive(list[i].0, list.last().0, entry.0);
            }
        }
    } else {
        let shorter = list.drop_last();
        let inner = inserted(shorter, entry);
        assert(forall|i: int| 0 <= i < shorter.len() ==> #[trigger] shorter[i] == list[i]);
        lemma_inserted_order(shorter, entry);
        lemma_inserted_entries(shorter, entry);
        assert(list[list.len() - 1].0.of > 0);
        assert forall|i: int, j: int| 0 <= i < j < after.len() implies score_reaches(
            (#[trigger] after[i]).0,
            (#[trigger] after[j]).0,
        ) by {
            if j == inner.len() {
                assert(after[i] == inner[i]);
                if inner[i] != entry {
                    let k = choose|k: int| 0 <= k < shorter.len() && shorter[k] == inner[i];
                    assert(score_reaches(list[k].0, list[list.len() - 1].0));
                }
            } else {
                assert(after[i] == inner[i] && after[j] == inner[j]);
            }
        }
        assert forall|i: int| 0 <= i < after.len() implies (#[trigger] after[i]).0.of > 0 by {
            if i < inner.len() {
                assert(after[i] == inner[i]);
            }
        }
    }
}

/// Whether entries with equal scores stand in the given order, and no entry stands twice.
pub open spec fn keeps_order<T>(list: Seq<(Score, T)>, before: spec_fn(T, T) -> bool) -> bool {
    &&& forall|i: int, j: int|
        0 <= i < j < list.len() && score_reaches(list[j].0, list[i].0) ==> before(
            (#[trigger] list[i]).1,
            (#[trigger] list[j]).1,
        )
    &&& forall|i: int, j: int|
        0 <= i < j < list.len() ==> (#[trigger] list[i]).1 != (#[trigger] list[j]).1
}

pub proof fn lemma_inserted_keeps_order<T>(
    list: Seq<(Score, T)>,
    entry: (Score, T),
    before: spec_fn(T, T) -> bool,
)
    requires
        keeps_order(list, before),
        forall|i: int|
            0 <= i < list.len() ==> before((#[trigger] list[i]).1, entry.1) && list[i].1 != entry.1,
    ensures
        keeps_order(inserted(list, entry), before),
    decreases list.len(),
{
    let after = inserted(list, entry);
    if list.len() > 0 && !score_reaches(list.last().0, entry.0) {
        let shorter = list.drop_last();
        let last = list[list.len() - 1];
        let inner = inserted(shorter, entry);
        assert(forall|i: int| 0 <= i < shorter.len() ==> #[trigger] shorter[i] == list[i]);
        lemma_inserted_keeps_order(shorter, entry, before);
        lemma_inserted_entries(shorter, entry);
        assert forall|i: int, j: int| 0 <= i < j < after.len() implies (#[trigger] after[i]).1 != (
        #[trigger] after[j]).1 && (score_reaches(after[j].0, after[i].0) ==> before(
            after[i].1,
            after[j].1,
        )) by {
            assert(after[i] == inner[i]);
            if j == inner.len() {
                assert(last.1 != entry.1);
                if inner[i] != entry {
                    let k = choose|k: int| 0 <= k < shorter.len() && shorter[k] == inner[i];
                    assert(list[k].1 != list[list.len() - 1].1);
                    assert(list[k] == after[i]);
                }
            } else {
                assert(after[j] == inner[j]);
            }
        }
    } else {
        assert forall|i: int, j: int| 0 <= i < j < after.len() implies (#[trigger] after[i]).1 != (
        #[trigger] after[j]).1 && (score_reaches(after[j].0, after[i].0) ==> before(
            after[i].1,
            after[j].1,
        )) by {
            if j == list.len() {
                assert(list[i].1 != entry.1);
            } else {
                assert(after[i] == list[i] && after[j] == list[j]);
            }
        }
    }
}

pub open spec fn position_before() -> spec_fn(usize, usize) -> bool {
    |a: usize, b: usize| a < b
}

/// Whether a list goes from the largest score down, the earlier position first where scores are
/// equal, with no position twice.
pub open spec fn is_ranked(list: Seq<(Score, usize)>) -> bool {
    in_score_order(list) && keeps_order(list, position_before())
}

/// A ranking lists the facts that share a word with the query, each once with its overlap, from
/// the largest overlap down; of equal overlaps the earlier fact comes first.
pub proof fn law_ranking(facts: Seq<FactText>, query: Set<Seq<char>>)
    requires
        facts.len() <= usize::MAX,
        query.finite(),
    ensures
        is_ranked(ranking(facts, query)),
        forall|i: int|
            0 <= i < ranking(facts, query).len() ==> (#[trigger] ranking(facts, query)[i]).1
                < facts.len() && ranking(facts, query)[i].0 == score_of(
                query,
                fact_words(facts[ranking(facts, query)[i].1 as int]),
            ),
        forall|k: usize|
            k < facts.len() ==> (score_of(query, fact_words(#[trigger] facts[k as int])).shared > 0
                <==> exists|i: int|
                0 <= i < ranking(facts, query).len() && (#[trigger] ranking(facts, query)[i]).1 == k),
{
    lemma_ranking(facts, query);
    let list = ranking(facts, query);
    assert forall|k: usize| k < facts.len() implies (score_of(
        query,
        fact_words(#[trigger] facts[k as int]),
    ).shared > 0 <==> exists|i: int| 0 <= i < list.len() && (#[trigger] list[i]).1 == k) by {
        let score = score_of(query, fact_words(facts[k as int]));
        if score.shared > 0 {
            assert(list.contains((score, k)));
            let i = choose|i: int| 0 <= i < list.len() && list[i] == (score, k);
            assert(list[i].1 == k);
        }
    }
}

proof fn lemma_ranking(facts: Seq<FactText>, query: Set<Seq<char>>)
    requires
        facts.len() <= usize::MAX,
        query.finite(),
    ensures
        is_ranked(ranking(facts, query)),
        positive(ranking(facts, query)),
        forall|i: int|
            0 <= i < ranking(facts, query).len() ==> (#[trigger] ranking(facts, query)[i]).1
                < facts.len() && ranking(facts, query)[i].0 == score_of(
                query,
                fact_words(facts[ranking(facts, query)[i].1 as int]),
            ) && ranking(facts, query)[i].0.shared > 0,
        forall|k: usize|
            k < facts.len() && score_of(query, fact_words(#[trigger] facts[k as int])).shared > 0
                ==> ranking(facts, query).contains(
                (score_of(query, fact_words(facts[k as int])), k),
            ),
    decreases facts.len(),
{
    if facts.len() > 0 {
        let shorter = facts.drop_last();
        let before = ranking(shorter, query);
        let last = (facts.len() - 1) as usize;
        let f = facts.last();
        let score = score_of(query, fact_words(f));
        lemma_ranking(shorter, query);
        lemma_words_finite(f);
        law_overlap(query, fact_words(f));
        assert(forall|i: int| 0 <= i < shorter.len() ==> #[trigger] shorter[i] == facts[i]);
        let after = ranking(facts, query);
        if score.shared > 0 {
            lemma_inserted_order(before, (score, last));
            lemma_inserted_keeps_order(before, (score, last), position_before());
            lemma_inserted_entries(before, (score, last));
            assert forall|i: int| 0 <= i < after.len() implies (#[trigger] after[i]).1 < facts.len()
                && after[i].0 == score_of(query, fact_words(facts[after[i].1 as int]))
                && after[i].0.shared > 0 by {
                if after[i] != (score, last) {
                    let k = choose|k: int| 0 <= k < before.len() && before[k] == after[i];
                    assert(shorter[before[k].1 as int] == facts[after[i].1 as int]);
                }
            }
        }
        assert forall|k: usize|
            k < facts.len() && score_of(query, fact_words(#[trigger] facts[k as int])).shared
                > 0 implies after.contains((score_of(query, fact_words(facts[k as int])), k)) by {
            if k < shorter.len() {
                assert(shorter[k as int] == facts[k as int]);
                assert(before.contains((score_of(query, fact_words(shorter[k as int])), k)));
            }
        }
    }
}

} // verus!
