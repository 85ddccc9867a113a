//! What the commands that search the facts show.

use vstd::prelude::*;

use crate::fact::{full_line, render, views, Fact, FactText};
use crate::number::{decimal, push_number};
use crate::rank::{
    in_score_order, insert_scored, inserted, is_near, keeps_order, law_overlap, law_ranking,
    lemma_inserted_entries, lemma_inserted_keeps_order, lemma_inserted_order, lemma_words_finite,
    overlap, positive, rank_by_overlap, ranking, score_of, score_reaches, scored, Overlap, Score,
};
use crate::refusal::{Reason, Refusal};
use crate::words::{fact_words, tokenize, tokens, Words};

verus! {

/// A line for the user.
#[derive(Debug)]
pub enum Line {
    /// The text itself.
    Text(String),
    /// An overlap, shown as a number with two decimals, and what follows it.
    Scored(Overlap, String),
}

#[verifier::ext_equal]
pub enum LineText {
    Text(Seq<char>),
    Scored(Score, Seq<char>),
}

impl View for Line {
    type V = LineText;

    open spec fn view(&self) -> LineText {
        match *self {
            Line::Text(s) => LineText::Text(s@),
            Line::Scored(o, s) => LineText::Scored(o@, s@),
        }
    }
}

pub open spec fn shown(list: Seq<Line>) -> Seq<LineText> {
    list.map_values(|l: Line| l@)
}

pub proof fn lemma_shown_push(list: Seq<Line>, line: Line)
    ensures
        shown(list.push(line)) == shown(list).push(line@),
{
    assert(shown(list.push(line)) =~= shown(list).push(line@));
}

// ---- find ----

/// The lines for the given hits.
pub open spec fn hit_lines(facts: Seq<FactText>, hits: Seq<(Score, usize)>) -> Seq<LineText> {
    hits.map_values(
        |h: (Score, usize)| LineText::Scored(h.0, " "@ + full_line(facts[h.1 as int])),
    )
}

/// The first entries of a list, `n` at most.
pub open spec fn at_most<T>(list: Seq<T>, n: int) -> Seq<T> {
    if list.len() <= n {
        list
    } else {
        list.take(n)
    }
}

/// What a search shows: the five facts with the largest overlap.
pub open spec fn found(facts: Seq<FactText>, query: Seq<char>) -> Result<Seq<LineText>, Reason> {
    let words = tokens(query);
    let hits = ranking(facts, words);
    if words.len() == 0 {
        Err(Reason::EmptyQuery)
    } else if hits.len() == 0 {
        Ok(seq![LineText::Text("no matches"@)])
    } else {
        Ok(hit_lines(facts, at_most(hits, 5)))
    }
}

pub open spec fn shown_result(r: Result<Vec<Line>, Refusal>) -> Result<Seq<LineText>, Reason> {
    match r {
        Ok(list) => Ok(shown(list@)),
        Err(e) => Err(e@),
    }
}

/// Finds the facts whose words overlap most with those of the query.
pub fn find(facts: &[Fact], query: &str) -> (list: Result<Vec<Line>, Refusal>)
    ensures
        shown_result(list) == found(views(facts@), query@),
{
    let words = tokenize(query);
    if words.len() == 0 {
        return Err(Refusal::EmptyQuery);
    }
    let hits = rank_by_overlap(facts, &words);
    let ghost all = scored(hits@);
    let mut list: Vec<Line> = Vec::new();
    if hits.len() == 0 {
        list.push(Line::Text("no matches".to_owned()));
        assert(shown(list@) =~= seq![LineText::Text("no matches"@)]);
        return Ok(list);
    }
    let count: usize = if hits.len() <= 5 {
        hits.len()
    } else {
        5
    };
    let ghost top = hit_lines(views(facts@), at_most(all, 5));
    for i in 0..count
        invariant
            all == scored(hits@),
            count == at_most(all, 5).len(),
            count <= hits@.len(),
            top == hit_lines(views(facts@), at_most(all, 5)),
            forall|i: int| 0 <= i < hits@.len() ==> (#[trigger] hits@[i]).1 < facts@.len(),
            shown(list@) == top.take(i as int),
    {
        let mut s = " ".to_owned();
        let line = render(&facts[hits[i].1]);
        s.append(&line);
        let entry = Line::Scored(hits[i].0, s);
        assert(all[i as int] == (hits@[i as int].0@, hits@[i as int].1));
        assert(entry@ == top[i as int]);
        proof {
            lemma_shown_push(list@, entry);
        }
        list.push(entry);
        assert(top.take(i + 1) =~= top.take(i as int).push(top[i as int]));
    }
    assert(top.take(count as int) =~= top);
    Ok(list)
}

// ---- similar facts ----

/// The number of entries at the front that are near-duplicates.
pub open spec fn near_front(hits: Seq<(Score, usize)>) -> nat
    decreases hits.len(),
{
    if hits.len() == 0 || !is_near(hits[0].0) {
        0
    } else {
        1 + near_front(hits.drop_first())
    }
}

proof fn lemma_near_front_len(hits: Seq<(Score, usize)>)
    ensures
        near_front(hits) <= hits.len(),
    decreases hits.len(),
{
    if hits.len() > 0 {
        lemma_near_front_len(hits.drop_first());
    }
}

/// The lines that point a new fact to those it resembles: three at most.
pub open spec fn similar_lines(facts: Seq<FactText>, words: Set<Seq<char>>) -> Seq<LineText> {
    let hits = ranking(facts, words);
    let n = if near_front(hits) <= 3 {
        near_front(hits) as int
    } else {
        3
    };
    hits.take(n).map_values(
        |h: (Score, usize)| LineText::Text("similar: "@ + full_line(facts[h.1 as int])),
    )
}

/// The lines that point a fact with the given words to the facts that it resembles.
pub fn similar(facts: &[Fact], words: &Words) -> (list: Vec<Line>)
    ensures
        shown(list@) == similar_lines(views(facts@), words@),
{
    let hits = rank_by_overlap(facts, words);
    let ghost all = scored(hits@);
    let ghost whole = similar_lines(views(facts@), words@);
    let mut list: Vec<Line> = Vec::new();
    let mut i: usize = 0;
    assert(all.skip(0) =~= all);
    assert(shown(list@) =~= whole.take(0));
    proof {
        lemma_near_front_len(all);
    }
    while i < hits.len() && i < 3 && hits[i].0.near()
        invariant
            all == scored(hits@),
            all == ranking(views(facts@), words@),
            whole == similar_lines(views(facts@), words@),
            i <= hits@.len(),
            i <= 3,
            near_front(all) == i + near_front(all.skip(i as int)),
            near_front(all.skip(i as int)) <= all.len() - i,
            forall|i: int| 0 <= i < hits@.len() ==> (#[trigger] hits@[i]).1 < facts@.len(),
            i <= whole.len(),
            shown(list@) == whole.take(i as int),
        decreases hits@.len() - i,
    {
        assert(all.skip(i as int)[0] == (hits@[i as int].0@, hits@[i as int].1));
        assert(all.skip(i as int).drop_first() =~= all.skip(i + 1));
        let mut s = "similar: ".to_owned();
        let line = render(&facts[hits[i].1]);
        s.append(&line);
        let entry = Line::Text(s);
        assert(entry@ == whole[i as int]);
        proof {
            lemma_shown_push(list@, entry);
        }
        list.push(entry);
        assert(whole.take(i + 1) =~= whole.take(i as int).push(whole[i as int]));
        i = i + 1;
    }
    assert(whole.take(i as int) =~= whole);
    list
}

// ---- near-duplicates ----

/// A list of lengths and positions from the longest down, with one more entry: behind those that
/// are at least as long.
pub open spec fn length_inserted(list: Seq<(nat, usize)>, entry: (nat, usize)) -> Seq<
    (nat, usize),
>
    decreases list.len(),
{
    if list.len() == 0 || list.last().0 >= entry.0 {
        list.push(entry)
    } else {
        length_inserted(list.drop_last(), entry).push(list.last())
    }
}

/// The facts over the limit, with the lengths of their texts, from the longest down.
pub open spec fn over_limit(facts: Seq<FactText>, limit: nat) -> Seq<(nat, usize)>
    decreases facts.len(),
{
    if facts.len() == 0 {
        Seq::empty()
    } else {
        let before = over_limit(facts.drop_last(), limit);
        if facts.last().text.len() > limit {
            length_inserted(before, (facts.last().text.len(), (facts.len() - 1) as usize))
        } else {
            before
        }
    }
}

/// The pairs of the fact `i` with the facts behind it, up to `j`.
pub open spec fn row(i: int, j: int) -> Seq<(usize, usize)> {
    Seq::new((j - i - 1) as nat, |k: int| (i as usize, (i + 1 + k) as usize))
}

/// The pairs of each of the first `i` facts with the facts behind it, of `n` facts.
pub open spec fn rows(n: int, i: int) -> Seq<(usize, usize)>
    decreases i,
{
    if i <= 0 {
        Seq::empty()
    } else {
        rows(n, i - 1) + row(i - 1, n)
    }
}

/// The near-duplicates among the given pairs, from the largest overlap down.
pub open spec fn near_pairs(facts: Seq<FactText>, pairs: Seq<(usize, usize)>) -> Seq<
    (Score, (usize, usize)),
>
    decreases pairs.len(),
{
    if pairs.len() == 0 {
        Seq::empty()
    } else {
        let before = near_pairs(facts, pairs.drop_last());
        let (i, j) = pairs.last();
        let score = score_of(fact_words(facts[i as int]), fact_words(facts[j as int]));
        if is_near(score) {
            inserted(before, (score, pairs.last()))
        } else {
            before
        }
    }
}

/// The lines about the facts over the limit.
pub open spec fn long_lines(facts: Seq<FactText>, limit: nat) -> Seq<LineText> {
    let long = over_limit(facts, limit);
    if long.len() == 0 {
        Seq::empty()
    } else {
        seq![
            LineText::Text(
                "over "@ + decimal(limit) + " chars ("@ + decimal(long.len())
                    + ") -> split each into atomic facts (`factsheet add` per rule, then `factsheet drop` the old id):"@,
            ),
        ] + long.map_values(
            |e: (nat, usize)|
                LineText::Text("  "@ + decimal(e.0) + " chars "@ + full_line(facts[e.1 as int])),
        )
    }
}

/// The three lines about each of the given pairs: the overlap, and the two facts.
pub open spec fn pair_lines(facts: Seq<FactText>, pairs: Seq<(Score, (usize, usize))>) -> Seq<
    LineText,
>
    decreases pairs.len(),
{
    if pairs.len() == 0 {
        Seq::empty()
    } else {
        let (score, (i, j)) = pairs.last();
        pair_lines(facts, pairs.drop_last()) + seq![
            LineText::Scored(score, Seq::empty()),
            LineText::Text("  "@ + full_line(facts[i as int])),
            LineText::Text("  "@ + full_line(facts[j as int])),
        ]
    }
}

/// What is shown for cleaning up: the facts over the limit, and the pairs of near-duplicates.
pub open spec fn dedup_lines(facts: Seq<FactText>, limit: nat) -> Seq<LineText> {
    let n = facts.len() as int;
    let pairs = near_pairs(facts, rows(n, n));
    long_lines(facts, limit) + if pairs.len() == 0 {
        seq![LineText::Text("no near-duplicates (overlap >= 0.5)"@)]
    } else {
        pair_lines(facts, pairs)
    }
}

pub open spec fn length_views(list: Seq<(usize, usize)>) -> Seq<(nat, usize)> {
    list.map_values(|e: (usize, usize)| (e.0 as nat, e.1))
}

fn insert_length(list: &mut Vec<(usize, usize)>, entry: (usize, usize))
    ensures
        length_views(final(list)@) == length_inserted(
            length_views(old(list)@),
            (entry.0 as nat, entry.1),
        ),
        forall|i: int|
            0 <= i < final(list)@.len() ==> (#[trigger] final(list)@[i]) == entry || old(
                list,
            )@.contains(final(list)@[i]),
{
    let ghost all = length_views(list@);
    let ghost e = (entry.0 as nat, entry.1);
    let mut i: usize = list.len();
    assert(all.skip(i as int) =~= Seq::<(nat, usize)>::empty());
    assert(all.take(i as int) =~= all);
    assert(length_inserted(all, e) =~= length_inserted(all.take(i as int), e) + all.skip(i as int));
    while i > 0 && list[i - 1].0 < entry.0
        invariant
            i <= list@.len(),
            all == length_views(list@),
            e == (entry.0 as nat, entry.1),
            length_inserted(all, e) == length_inserted(all.take(i as int), e) + all.skip(i as int),
        decreases i,
    {
        let ghost t = all.take(i as int);
        assert(t.last() == all[i - 1]);
        assert(t.drop_last() =~= all.take(i - 1));
        assert(all.skip(i - 1) =~= seq![all[i - 1]] + all.skip(i as int));
        assert(length_inserted(t, e) + all.skip(i as int) =~= length_inserted(all.take(i - 1), e)
            + all.skip(i - 1));
        i = i - 1;
    }
    if i > 0 {
        assert(all.take(i as int).last() == all[i - 1]);
    }
    list.insert(i, entry);
    assert(length_views(list@) =~= all.take(i as int).push(e) + all.skip(i as int));
    assert forall|k: int| 0 <= k < list@.len() implies (#[trigger] list@[k]) == entry || old(
        list,
    )@.contains(list@[k]) by {
        if k < i {
            assert(list@[k] == old(list)@[k]);
        } else if k > i {
            assert(list@[k] == old(list)@[k - 1]);
        }
    }
}

fn push_long_lines(list: &mut Vec<Line>, facts: &[Fact], limit: usize)
    ensures
        shown(final(list)@) == shown(old(list)@) + long_lines(views(facts@), limit as nat),
{
    let ghost all = views(facts@);
    let mut long: Vec<(usize, usize)> = Vec::new();
    assert(length_views(long@) =~= over_limit(all.take(0), limit as nat));
    for i in 0..facts.len()
        invariant
            all == views(facts@),
            length_views(long@) == over_limit(all.take(i as int), limit as nat),
            forall|k: int| 0 <= k < long@.len() ==> (#[trigger] long@[k]).1 < facts@.len(),
    {
        assert(all.take(i + 1).drop_last() =~= all.take(i as int));
        let n = facts[i].text_len();
        if n > limit {
            let ghost before = long@;
            insert_length(&mut long, (n, i));
            assert forall|k: int| 0 <= k < long@.len() implies (#[trigger] long@[k]).1
                < facts@.len() by {
                if long@[k] != (n, i) {
                    let m = choose|m: int| 0 <= m < before.len() && before[m] == long@[k];
                    assert(before[m].1 < facts@.len());
                }
            }
        }
    }
    assert(all.take(all.len() as int) =~= all);
    let ghost entries = length_views(long@);
    let ghost start = shown(list@);
    let ghost whole = long_lines(all, limit as nat);
    if long.len() == 0 {
        assert(start + whole =~= start);
        return ;
    }
    let mut s = "over ".to_owned();
    push_number(&mut s, limit as u128);
    s.append(" chars (");
    push_number(&mut s, long.len() as u128);
    s.append(
        ") -> split each into atomic facts (`factsheet add` per rule, then `factsheet drop` the old id):",
    );
    let top = Line::Text(s);
    proof {
        lemma_shown_push(list@, top);
    }
    list.push(top);
    assert(shown(list@) =~= start + whole.take(1));
    for i in 0..long.len()
        invariant
            all == views(facts@),
            entries == length_views(long@),
            whole == long_lines(all, limit as nat),
            entries == over_limit(all, limit as nat),
            forall|k: int| 0 <= k < long@.len() ==> (#[trigger] long@[k]).1 < facts@.len(),
            shown(list@) == start + whole.take(i + 1),
    {
        let (n, k) = long[i];
        let mut s = "  ".to_owned();
        push_number(&mut s, n as u128);
        s.append(" chars ");
        let line = render(&facts[k]);
        s.append(&line);
        let entry = Line::Text(s);
        assert(entries[i as int] == (n as nat, k));
        assert(s@ =~= "  "@ + decimal(n as nat) + " chars "@ + full_line(all[k as int]));
        assert(entry@ == whole[i + 1]);
        proof {
            lemma_shown_push(list@, entry);
        }
        list.push(entry);
        assert(whole.take(i + 2) =~= whole.take(i + 1).push(whole[i + 1]));
        assert(shown(list@) =~= start + whole.take(i + 2));
    }
    assert(whole.take(whole.len() as int) =~= whole);
}

fn all_words(facts: &[Fact]) -> (sets: Vec<Words>)
    ensures
        sets@.len() == facts@.len(),
        forall|k: int|
            0 <= k < facts@.len() ==> (#[trigger] sets@[k])@ == fact_words(views(facts@)[k]),
{
    let mut sets: Vec<Words> = Vec::new();
    for i in 0..facts.len()
        invariant
            sets@.len() == i,
            forall|k: int| 0 <= k < i ==> (#[trigger] sets@[k])@ == fact_words(views(facts@)[k]),
    {
        sets.push(facts[i].words());
    }
    sets
}

/// The pairs of near-duplicates, by position, from the largest overlap down.
fn find_near_pairs(facts: &[Fact]) -> (pairs: Vec<(Overlap, (usize, usize))>)
    ensures
        scored(pairs@) == near_pairs(views(facts@), rows(facts@.len() as int, facts@.len() as int)),
        forall|k: int|
            0 <= k < pairs@.len() ==> (#[trigger] pairs@[k]).1.0 < facts@.len() && pairs@[k].1.1
                < facts@.len(),
{
    let ghost all = views(facts@);
    let n = facts.len();
    let sets = all_words(facts);
    let mut pairs: Vec<(Overlap, (usize, usize))> = Vec::new();
    assert(scored(pairs@) =~= near_pairs(all, rows(n as int, 0)));
    for i in 0..n
        invariant
            all == views(facts@),
            n == facts@.len(),
            sets@.len() == n,
            forall|k: int| 0 <= k < n ==> (#[trigger] sets@[k])@ == fact_words(all[k]),
            scored(pairs@) == near_pairs(all, rows(n as int, i as int)),
            forall|k: int|
                0 <= k < pairs@.len() ==> (#[trigger] pairs@[k]).1.0 < n && pairs@[k].1.1 < n,
    {
        let ghost above = rows(n as int, i as int);
        assert(above + row(i as int, i + 1) =~= above);
        for j in i + 1..n
            invariant
                all == views(facts@),
                n == facts@.len(),
                sets@.len() == n,
                i < n,
                forall|k: int| 0 <= k < n ==> (#[trigger] sets@[k])@ == fact_words(all[k]),
                scored(pairs@) == near_pairs(all, above + row(i as int, j as int)),
                forall|k: int|
                    0 <= k < pairs@.len() ==> (#[trigger] pairs@[k]).1.0 < n && pairs@[k].1.1 < n,
        {
            let ghost seen = above + row(i as int, j as int);
            let ghost next = above + row(i as int, j + 1);
            assert(next =~= seen.push((i, j)));
            assert(next.drop_last() =~= seen);
            let score = overlap(&sets[i], &sets[j]);
            if score.near() {
                let ghost before = pairs@;
                insert_scored(&mut pairs, (score, (i, j)));
                proof {
                    lemma_inserted_entries(scored(before), (score@, (i, j)));
                    assert forall|k: int| 0 <= k < pairs@.len() implies (#[trigger] pairs@[k]).1.0
                        < n && pairs@[k].1.1 < n by {
                        let e = scored(pairs@)[k];
                        assert(e == (pairs@[k].0@, pairs@[k].1));
                        if e != (score@, (i, j)) {
                            let m = choose|m: int|
                                0 <= m < scored(before).len() && scored(before)[m] == e;
                            assert(before[m].1 == e.1);
                        }
                    }
                }
            }
        }
        assert(above + row(i as int, n as int) == rows(n as int, i + 1));
    }
    pairs
}

/// Lists the facts over the limit and the pairs of near-duplicates. It only lists them: to merge
/// facts takes a judgment.
pub fn dedup(facts: &[Fact], limit: usize) -> (list: Vec<Line>)
    ensures
        shown(list@) == dedup_lines(views(facts@), limit as nat),
{
    let ghost all = views(facts@);
    let mut list: Vec<Line> = Vec::new();
    push_long_lines(&mut list, facts, limit);
    let pairs = find_near_pairs(facts);
    let ghost entries = scored(pairs@);
    let ghost start = shown(list@);
    assert(start =~= long_lines(all, limit as nat));
    if pairs.len() == 0 {
        let line = Line::Text("no near-duplicates (overlap >= 0.5)".to_owned());
        proof {
            lemma_shown_push(list@, line);
        }
        list.push(line);
        assert(shown(list@) =~= dedup_lines(all, limit as nat));
        return list;
    }
    assert(start + pair_lines(all, entries.take(0)) =~= start);
    for k in 0..pairs.len()
        invariant
            all == views(facts@),
            entries == scored(pairs@),
            forall|k: int|
                0 <= k < pairs@.len() ==> (#[trigger] pairs@[k]).1.0 < facts@.len()
                    && pairs@[k].1.1 < facts@.len(),
            shown(list@) == start + pair_lines(all, entries.take(k as int)),
    {
        let (score, (i, j)) = pairs[k];
        assert(entries[k as int] == (score@, (i, j)));
        assert(entries.take(k + 1).drop_last() =~= entries.take(k as int));
        let ghost before = shown(list@);
        let head = Line::Scored(score, String::new());
        let mut first = "  ".to_owned();
        let line = render(&facts[i]);
        first.append(&line);
        let mut second = "  ".to_owned();
        let line = render(&facts[j]);
        second.append(&line);
        let first = Line::Text(first);
        let second = Line::Text(second);
        proof {
            lemma_shown_push(list@, head);
            lemma_shown_push(list@.push(head), first);
            lemma_shown_push(list@.push(head).push(first), second);
        }
        list.push(head);
        list.push(first);
        list.push(second);
        assert(shown(list@) =~= before + seq![head@, first@, second@]);
        assert(head@ =~= LineText::Scored(score@, Seq::empty()));
        assert(shown(list@) =~= start + pair_lines(all, entries.take(k + 1)));
    }
    assert(entries.take(entries.len() as int) =~= entries);
    list
}

// ---- what the lists hold ----

proof fn lemma_row(n: int, i: int, a: usize, b: usize)
    requires
        0 <= i < n <= usize::MAX,
    ensures
        row(i, n).contains((a, b)) <==> a == i && a < b < n,
{
    let line = row(i, n);
    if line.contains((a, b)) {
        let k = choose|k: int| 0 <= k < line.len() && line[k] == (a, b);
        assert(line[k] == (i as usize, (i + 1 + k) as usize));
    }
    if a == i && a < b < n {
        assert(line[b - a - 1] == (a, b));
    }
}

/// The pairs that are compared are those of a fact and a later one, for all facts.
proof fn lemma_rows(n: int, i: int, a: usize, b: usize)
    requires
        0 <= i <= n <= usize::MAX,
    ensures
        rows(n, i).contains((a, b)) <==> a < i && a < b < n,
    decreases i,
{
    if i > 0 {
        lemma_rows(n, i - 1, a, b);
        lemma_row(n, i - 1, a, b);
        vstd::seq_lib::lemma_seq_concat_contains_all_elements(rows(n, i - 1), row(i - 1, n), (a, b));
    }
}

proof fn lemma_near_pairs(facts: Seq<FactText>, pairs: Seq<(usize, usize)>)
    ensures
        in_score_order(near_pairs(facts, pairs)),
        positive(near_pairs(facts, pairs)),
        forall|s: Score, p: (usize, usize)| #[trigger]
            near_pairs(facts, pairs).contains((s, p)) <==> pairs.contains(p) && is_near(s) && s
                == score_of(fact_words(facts[p.0 as int]), fact_words(facts[p.1 as int])),
    decreases pairs.len(),
{
    if pairs.len() > 0 {
        let shorter = pairs.drop_last();
        let before = near_pairs(facts, shorter);
        let (i, j) = pairs.last();
        let score = score_of(fact_words(facts[i as int]), fact_words(facts[j as int]));
        lemma_near_pairs(facts, shorter);
        lemma_words_finite(facts[i as int]);
        lemma_words_finite(facts[j as int]);
        law_overlap(fact_words(facts[i as int]), fact_words(facts[j as int]));
        let entry = (score, pairs.last());
        if is_near(score) {
            lemma_inserted_order(before, entry);
            lemma_inserted_entries(before, entry);
        }
        let after = near_pairs(facts, pairs);
        assert forall|s: Score, p: (usize, usize)| #[trigger]
            after.contains((s, p)) <==> pairs.contains(p) && is_near(s) && s == score_of(
                fact_words(facts[p.0 as int]),
                fact_words(facts[p.1 as int]),
            ) by {
            if after.contains((s, p)) {
                if is_near(score) {
                    let k = choose|k: int| 0 <= k < after.len() && after[k] == (s, p);
                    if after[k] != entry {
                        assert(before.contains((s, p)));
                    }
                }
                if before.contains((s, p)) {
                    let k = choose|k: int| 0 <= k < shorter.len() && shorter[k] == p;
                    assert(pairs[k] == p);
                } else {
                    assert(pairs[pairs.len() - 1] == p);
                }
            }
            if pairs.contains(p) && is_near(s) && s == score_of(
                fact_words(facts[p.0 as int]),
                fact_words(facts[p.1 as int]),
            ) {
                if p != pairs.last() {
                    let k = choose|k: int| 0 <= k < pairs.len() && pairs[k] == p;
                    assert(shorter[k] == p);
                    assert(before.contains((s, p)));
                }
            }
        }
    }
}

/// The order of pairs: by the first fact, and then by the second.
pub open spec fn pair_before() -> spec_fn((usize, usize), (usize, usize)) -> bool {
    |p: (usize, usize), q: (usize, usize)| p.0 < q.0 || (p.0 == q.0 && p.1 < q.1)
}

pub open spec fn pairs_in_order(pairs: Seq<(usize, usize)>) -> bool {
    forall|i: int, j: int|
        0 <= i < j < pairs.len() ==> pair_before()(#[trigger] pairs[i], #[trigger] pairs[j])
}

proof fn lemma_rows_in_order(n: int, i: int)
    requires
        0 <= i <= n <= usize::MAX,
    ensures
        pairs_in_order(rows(n, i)),
    decreases i,
{
    if i > 0 {
        lemma_rows_in_order(n, i - 1);
        let above = rows(n, i - 1);
        let line = row(i - 1, n);
        let all = rows(n, i);
        assert forall|a: int, b: int| 0 <= a < b < all.len() implies pair_before()(
            #[trigger] all[a],
            #[trigger] all[b],
        ) by {
            if b < above.len() {
                assert(all[a] == above[a] && all[b] == above[b]);
            } else {
                assert(all[b] == line[b - above.len()]);
                if a < above.len() {
                    assert(all[a] == above[a]);
                    assert(above.contains(above[a]));
                    lemma_rows(n, i - 1, above[a].0, above[a].1);
                } else {
                    assert(all[a] == line[a - above.len()]);
                }
            }
        }
    }
}

proof fn lemma_near_pairs_keep_order(facts: Seq<FactText>, pairs: Seq<(usize, usize)>)
    requires
        pairs_in_order(pairs),
    ensures
        keeps_order(near_pairs(facts, pairs), pair_before()),
    decreases pairs.len(),
{
    if pairs.len() > 0 {
        let shorter = pairs.drop_last();
        let before = near_pairs(facts, shorter);
        assert(forall|i: int| 0 <= i < shorter.len() ==> #[trigger] shorter[i] == pairs[i]);
        lemma_near_pairs_keep_order(facts, shorter);
        lemma_near_pairs(facts, shorter);
        let (i, j) = pairs.last();
        let score = score_of(fact_words(facts[i as int]), fact_words(facts[j as int]));
        if is_near(score) {
            let entry = (score, pairs.last());
            assert forall|k: int| 0 <= k < before.len() implies pair_before()(
                (#[trigger] before[k]).1,
                entry.1,
            ) && before[k].1 != entry.1 by {
                assert(before.contains((before[k].0, before[k].1)));
                let m = choose|m: int| 0 <= m < shorter.len() && shorter[m] == before[k].1;
                assert(pair_before()(pairs[m], pairs[pairs.len() - 1]));
            }
            lemma_inserted_keeps_order(before, entry, pair_before());
        }
    }
}

/// The pairs that are listed are the pairs of facts whose overlap is one half or more, each once,
/// from the largest overlap down; pairs with equal overlaps stand in the order of their facts.
pub proof fn law_near_pairs(facts: Seq<FactText>, s: Score, a: usize, b: usize)
    requires
        facts.len() <= usize::MAX,
    ensures
        ({
            let pairs = near_pairs(facts, rows(facts.len() as int, facts.len() as int));
            &&& in_score_order(pairs)
            &&& keeps_order(pairs, pair_before())
            &&& pairs.contains((s, (a, b))) <==> a < b < facts.len() && is_near(s) && s == score_of(
                fact_words(facts[a as int]),
                fact_words(facts[b as int]),
            )
        }),
{
    let n = facts.len() as int;
    lemma_near_pairs(facts, rows(n, n));
    lemma_rows_in_order(n, n);
    lemma_near_pairs_keep_order(facts, rows(n, n));
    lemma_rows(n, n, a, b);
}

/// Whether the lengths go down, or stay, from one entry to the next, the earlier position first
/// where lengths are equal, with no position twice.
pub open spec fn in_length_order(list: Seq<(nat, usize)>) -> bool {
    &&& forall|i: int, j: int|
        0 <= i < j < list.len() ==> (#[trigger] list[i]).0 >= (#[trigger] list[j]).0
    &&& forall|i: int, j: int|
        0 <= i < j < list.len() && list[i].0 == list[j].0 ==> (#[trigger] list[i]).1 < (
        #[trigger] list[j]).1
    &&& forall|i: int, j: int|
        0 <= i < j < list.len() ==> (#[trigger] list[i]).1 != (#[trigger] list[j]).1
}

proof fn lemma_length_inserted(list: Seq<(nat, usize)>, entry: (nat, usize))
    requires
        in_length_order(list),
        forall|i: int| 0 <= i < list.len() ==> (#[trigger] list[i]).1 < entry.1,
    ensures
        in_length_order(length_inserted(list, entry)),
        forall|x: (nat, usize)| #[trigger]
            length_inserted(list, entry).contains(x) <==> x == entry || list.contains(x),
    decreases list.len(),
{
    let after = length_inserted(list, entry);
    if list.len() == 0 || list.last().0 >= entry.0 {
        assert(after[list.len() as int] == entry);
        assert forall|x: (nat, usize)| #[trigger] after.contains(x) <==> x == entry
            || list.contains(x) by {
            if list.contains(x) {
                let k = choose|k: int| 0 <= k < list.len() && list[k] == x;
                assert(after[k] == x);
            }
        }
        assert forall|i: int, j: int| 0 <= i < j < after.len() implies (#[trigger] after[i]).0 >= (
        #[trigger] after[j]).0 && after[i].1 != after[j].1 && (after[i].0 == after[j].0
            ==> after[i].1 < after[j].1) by {
            assert(after[i] == list[i]);
            if j == list.len() {
                assert(list[i].0 >= list[list.len() - 1].0 || i == list.len() - 1);
            } else {
                assert(after[j] == list[j]);
            }
        }
    } else {
        let shorter = list.drop_last();
        let inner = length_inserted(shorter, entry);
        assert(forall|i: int| 0 <= i < shorter.len() ==> #[trigger] shorter[i] == list[i]);
        lemma_length_inserted(shorter, entry);
        assert forall|i: int, j: int| 0 <= i < j < after.len() implies (#[trigger] after[i]).0 >= (
        #[trigger] after[j]).0 && after[i].1 != after[j].1 && (after[i].0 == after[j].0
            ==> after[i].1 < after[j].1) by {
            assert(after[i] == inner[i]);
            if j == inner.len() {
                assert(inner.contains(inner[i]));
                assert(list[list.len() - 1].1 < entry.1);
                if inner[i] != entry {
                    let k = choose|k: int| 0 <= k < shorter.len() && shorter[k] == inner[i];
                    assert(list[k].0 >= list[list.len() - 1].0);
                    assert(list[k].1 != list[list.len() - 1].1);
                }
            } else {
                assert(after[j] == inner[j]);
            }
        }
        assert forall|x: (nat, usize)| #[trigger] after.contains(x) <==> x == entry
            || list.contains(x) by {
            if after.contains(x) {
                let k = choose|k: int| 0 <= k < after.len() && after[k] == x;
                if k < inner.len() {
                    assert(inner[k] == x);
                    assert(inner.contains(x));
                    if x != entry {
                        let m = choose|m: int| 0 <= m < shorter.len() && shorter[m] == x;
                        assert(list[m] == x);
                    }
                } else {
                    assert(list[list.len() - 1] == x);
                }
            }
            if x == entry || list.contains(x) {
                if x == list.last() {
                    assert(after[after.len() - 1] == x);
                } else {
                    if x != entry {
                        let k = choose|k: int| 0 <= k < list.len() && list[k] == x;
                        assert(shorter[k] == x);
                    }
                    assert(inner.contains(x));
                    let k = choose|k: int| 0 <= k < inner.len() && inner[k] == x;
                    assert(after[k] == x);
                }
            }
        }
    }
}

/// The facts that are listed as too long are those whose texts are over the limit, each once, from
/// the longest down; facts with equal lengths stand in their order.
pub proof fn law_over_limit(facts: Seq<FactText>, limit: nat, n: nat, k: usize)
    requires
        facts.len() <= usize::MAX,
    ensures
        in_length_order(over_limit(facts, limit)),
        over_limit(facts, limit).contains((n, k)) <==> k < facts.len() && n
            == facts[k as int].text.len() && n > limit,
    decreases facts.len(),
{
    if facts.len() > 0 {
        let shorter = facts.drop_last();
        law_over_limit(shorter, limit, n, k);
        if facts.last().text.len() > limit {
            let before = over_limit(shorter, limit);
            assert forall|i: int| 0 <= i < before.len() implies (#[trigger] before[i]).1
                < facts.len() - 1 by {
                assert(before.contains(before[i]));
                law_over_limit(shorter, limit, before[i].0, before[i].1);
            }
            lemma_length_inserted(
                over_limit(shorter, limit),
                (facts.last().text.len(), (facts.len() - 1) as usize),
            );
        }
    }
}

/// What a search shows: five facts at most, each with its overlap with the query, and no fact that
/// is not shown has a larger overlap than one that is.
pub proof fn law_best_shown(facts: Seq<FactText>, query: Seq<char>, k: usize)
    requires
        facts.len() <= usize::MAX,
        k < facts.len(),
        score_of(tokens(query), fact_words(facts[k as int])).shared > 0,
    ensures
        ({
            let score = score_of(tokens(query), fact_words(facts[k as int]));
            let hits = at_most(ranking(facts, tokens(query)), 5);
            &&& found(facts, query) == Ok::<Seq<LineText>, Reason>(hit_lines(facts, hits))
            &&& 0 < hits.len() <= 5
            &&& (exists|i: int| 0 <= i < hits.len() && (#[trigger] hits[i]).1 == k) || (hits.len()
                == 5 && forall|i: int|
                0 <= i < hits.len() ==> score_reaches((#[trigger] hits[i]).0, score))
        }),
{
    broadcast use vstd::seq_lib::seq_to_set_is_finite;

    let words = tokens(query);
    law_ranking(facts, words);
    let all = ranking(facts, words);
    assert(score_of(words, fact_words(facts[k as int])).shared > 0);
    let at = choose|i: int| 0 <= i < all.len() && (#[trigger] all[i]).1 == k;
    let hits = at_most(all, 5);
    if at < hits.len() {
        assert(hits[at].1 == k);
    } else {
        assert forall|i: int| 0 <= i < hits.len() implies score_reaches(
            (#[trigger] hits[i]).0,
            all[at].0,
        ) by {
            assert(hits[i] == all[i]);
        }
    }
}

/// The facts that a new fact is pointed to are three at most, and each has an overlap of one half
/// or more with it.
pub proof fn law_similar_are_near(facts: Seq<FactText>, words: Set<Seq<char>>, i: int)
    requires
        0 <= i < similar_lines(facts, words).len(),
    ensures
        similar_lines(facts, words).len() <= 3,
        is_near(ranking(facts, words)[i].0),
        similar_lines(facts, words)[i] == LineText::Text(
            "similar: "@ + full_line(facts[ranking(facts, words)[i].1 as int]),
        ),
{
    let hits = ranking(facts, words);
    lemma_near_front_len(hits);
    lemma_near_front(hits, i);
}

proof fn lemma_near_front(hits: Seq<(Score, usize)>, i: int)
    requires
        0 <= i < near_front(hits),
    ensures
        is_near(hits[i].0),
    decreases hits.len(),
{
    lemma_near_front_len(hits);
    if i > 0 {
        lemma_near_front(hits.drop_first(), i - 1);
        assert(hits.drop_first()[i - 1] == hits[i]);
    }
}

proof fn lemma_near_front_ends(hits: Seq<(Score, usize)>)
    ensures
        near_front(hits) < hits.len() ==> !is_near(hits[near_front(hits) as int].0),
    decreases hits.len(),
{
    lemma_near_front_len(hits);
    if hits.len() > 0 && is_near(hits[0].0) {
        let rest = hits.drop_first();
        lemma_near_front_ends(rest);
        lemma_near_front_len(rest);
        if near_front(rest) < rest.len() {
            assert(rest[near_front(rest) as int] == hits[near_front(hits) as int]);
        }
    }
}

proof fn lemma_near_upwards(a: Score, b: Score)
    requires
        score_reaches(a, b),
        is_near(b),
        b.of > 0,
    ensures
        is_near(a),
{
    let (p, q, r, s) = (a.shared, a.of, b.shared, b.of);
    assert(2 * p >= q) by (nonlinear_arith)
        requires
            p * s >= r * q,
            2 * r >= s,
            s > 0,
            p >= 0,
            q >= 0,
            r >= 0,
    {
        assert(2 * (p * s) >= 2 * (r * q));
        assert((2 * r) * q >= s * q);
        assert(s * (2 * p) >= s * q);
    }
}

/// A fact that a new fact is not pointed to has no larger overlap with it than those that it is
/// pointed to; and if these are fewer than three, its overlap is less than one half.
pub proof fn law_no_similar_left_out(facts: Seq<FactText>, words: Set<Seq<char>>, k: usize)
    requires
        facts.len() <= usize::MAX,
        words.finite(),
        k < facts.len(),
    ensures
        ({
            let score = score_of(words, fact_words(facts[k as int]));
            let hits = ranking(facts, words);
            let n = similar_lines(facts, words).len() as int;
            &&& n <= hits.len()
            &&& (exists|i: int| 0 <= i < n && (#[trigger] hits[i]).1 == k) || ((n < 3 ==> !is_near(
                score,
            )) && forall|i: int| 0 <= i < n ==> score_reaches((#[trigger] hits[i]).0, score))
        }),
{
    let score = score_of(words, fact_words(facts[k as int]));
    let hits = ranking(facts, words);
    let n = similar_lines(facts, words).len() as int;
    law_ranking(facts, words);
    lemma_near_front_len(hits);
    lemma_near_front_ends(hits);
    lemma_words_finite(facts[k as int]);
    law_overlap(words, fact_words(facts[k as int]));
    if score.shared > 0 {
        let at = choose|i: int| 0 <= i < hits.len() && (#[trigger] hits[i]).1 == k;
        assert(hits[at].0 == score);
        if at >= n {
            if n < 3 {
                assert(!is_near(hits[n].0));
                if is_near(score) && at > n {
                    assert(score_reaches(hits[n].0, hits[at].0));
                    lemma_near_upwards(hits[n].0, score);
                }
            }
            assert forall|i: int| 0 <= i < n implies score_reaches(
                (#[trigger] hits[i]).0,
                score,
            ) by {
                assert(score_reaches(hits[i].0, hits[at].0));
            }
        } else {
            assert(hits[at].1 == k);
        }
    } else {
        assert forall|i: int| 0 <= i < n implies score_reaches((#[trigger] hits[i]).0, score) by {
            assert(hits[i].0.shared * score.of >= 0) by (nonlinear_arith);
            assert(score.shared * hits[i].0.of == 0) by (nonlinear_arith)
                requires
                    score.shared == 0,
            ;
        }
    }
}

} // verus!
