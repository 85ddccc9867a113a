//! The words of texts, and how many of them two texts share.

use vstd::prelude::*;
use vstd::string::is_ascii;

use crate::fact::{Fact, FactText};
use crate::form::{is_piece_at, law_pieces};
use crate::text::{
    ascii_words_known, at_least, contains_text, is_word_char, keep_at_least, lemma_texts_push,
    pieces, split_at_chars, texts, Separator,
};

verus! {

/// The result of `str::to_lowercase`: the text with its letters in lower case.
pub uninterp spec fn lowercase(s: Seq<char>) -> Seq<char>;

/// An ASCII letter in lower case; any other character as it is.
pub open spec fn ascii_lowercase(c: char) -> char {
    if 'A' <= c <= 'Z' {
        (c as int + 32) as char
    } else {
        c
    }
}

/// `str::to_lowercase` depends on the characters alone; of an ASCII text it changes the letters
/// `A` to `Z` and nothing else.
pub assume_specification[ str::to_lowercase ](s: &str) -> (lower: String)
    ensures
        lower@ == lowercase(s@),
        is_ascii(s) ==> lower@ == s@.map_values(|c: char| ascii_lowercase(c)),
;

/// The words of a text that is in lower case: the runs of letters and numbers with two
/// characters or more.
pub open spec fn runs_of(lower: Seq<char>) -> Seq<Seq<char>> {
    pieces(lower, Separator::NotWordChar).filter(at_least(2))
}

/// The words of a text.
pub open spec fn tokens(s: Seq<char>) -> Set<Seq<char>> {
    runs_of(lowercase(s)).to_set()
}

/// Whether the characters from `a` up to `b` are a run of letters and numbers that cannot be made
/// longer.
pub open spec fn is_run_at(s: Seq<char>, a: int, b: int) -> bool {
    &&& 0 <= a <= b <= s.len()
    &&& forall|i: int| a <= i < b ==> is_word_char(#[trigger] s[i])
    &&& a == 0 || !is_word_char(s[a - 1])
    &&& b == s.len() || !is_word_char(s[b])
}

/// The words of a text are the longest runs of letters and numbers, in lower case, that have two
/// characters or more.
pub proof fn law_words_are_runs(s: Seq<char>, w: Seq<char>)
    ensures
        tokens(s).contains(w) <==> w.len() >= 2 && exists|a: int, b: int| #[trigger]
            is_run_at(lowercase(s), a, b) && w == lowercase(s).subrange(a, b),
{
    let lower = lowercase(s);
    let sep = Separator::NotWordChar;
    let all = pieces(lower, sep);
    let runs = runs_of(lower);
    law_pieces(lower, sep, w);
    if runs.contains(w) {
        all.lemma_filter_contains_rev(at_least(2), w);
        let k = choose|k: int| 0 <= k < runs.len() && runs[k] == w;
        all.lemma_filter_pred(at_least(2), k);
        let (a, b) = choose|a: int, b: int| #[trigger]
            is_piece_at(lower, sep, a, b) && w == lower.subrange(a, b);
        assert(is_run_at(lower, a, b));
    }
    if w.len() >= 2 && exists|a: int, b: int| #[trigger]
        is_run_at(lower, a, b) && w == lower.subrange(a, b) {
        let (a, b) = choose|a: int, b: int| #[trigger]
            is_run_at(lower, a, b) && w == lower.subrange(a, b);
        assert(is_piece_at(lower, sep, a, b));
        let k = choose|k: int| 0 <= k < all.len() && all[k] == w;
        all.lemma_filter_contains(at_least(2), k);
    }
}

/// A set of words.
#[derive(Debug)]
pub struct Words {
    items: Vec<String>,
}

impl View for Words {
    type V = Set<Seq<char>>;

    closed spec fn view(&self) -> Set<Seq<char>> {
        texts(self.items@).to_set()
    }
}

impl Words {
    /// Every word is listed once.
    #[verifier::type_invariant]
    spec fn distinct(self) -> bool {
        texts(self.items@).no_duplicates()
    }

    /// The number of words.
    pub fn len(&self) -> (n: usize)
        ensures
            n == self@.len(),
            self@.finite(),
    {
        proof {
            use_type_invariant(self);
            texts(self.items@).unique_seq_to_set();
            law_words_finite(*self);
        }
        self.items.len()
    }

    /// The set of the given words.
    pub fn from_list(list: &[String]) -> (words: Words)
        ensures
            words@ == texts(list@).to_set(),
    {
        let empty: Vec<String> = Vec::new();
        let items = distinct_union(empty, list);
        assert(texts(items@).to_set() =~= texts(list@).to_set());
        Words { items }
    }

    /// The words of this set and of `more`.
    pub fn union(self, more: &Words) -> (words: Words)
        ensures
            words@ == self@.union(more@),
    {
        proof {
            use_type_invariant(&self);
        }
        let items = distinct_union(self.items, &more.items);
        assert(texts(items@).to_set() =~= self@.union(more@));
        Words { items }
    }

    /// The number of words that are in both sets.
    pub fn shared_with(&self, other: &Words) -> (n: usize)
        ensures
            n == self@.intersect(other@).len(),
            n <= self@.len(),
    {
        proof {
            use_type_invariant(self);
        }
        let ghost mine = texts(self.items@);
        let ghost theirs = texts(other.items@);
        let ghost mut common: Seq<Seq<char>> = Seq::empty();
        let mut n: usize = 0;
        for i in 0..self.items.len()
            invariant
                mine == texts(self.items@),
                mine.no_duplicates(),
                theirs == texts(other.items@),
                common.no_duplicates(),
                n == common.len(),
                n <= i,
                forall|w: Seq<char>| #[trigger]
                    common.contains(w) <==> mine.take(i as int).contains(w) && theirs.contains(w),
        {
            let ghost w = mine[i as int];
            let ghost before = common;
            assert(mine.take(i + 1) =~= mine.take(i as int).push(w));
            assert(!mine.take(i as int).contains(w)) by {
                if mine.take(i as int).contains(w) {
                    let j = choose|j: int| 0 <= j < i && mine.take(i as int)[j] == w;
                    assert(mine[j] == mine[i as int]);
                }
            }
            if contains_text(&other.items, &self.items[i]) {
                n = n + 1;
                proof {
                    assert(!before.contains(w));
                    common = common.push(w);
                    assert forall|a: int, b: int|
                        0 <= a < common.len() && 0 <= b < common.len() && a
                            != b implies common[a] != common[b] by {
                        if a == before.len() {
                            assert(before.contains(before[b]));
                        } else if b == before.len() {
                            assert(before.contains(before[a]));
                        }
                    }
                    assert forall|x: Seq<char>| #[trigger]
                        common.contains(x) <==> mine.take(i + 1).contains(x) && theirs.contains(
                            x,
                        ) by {
                        broadcast use vstd::seq_lib::group_seq_properties;

                        assert(common.contains(x) <==> before.contains(x) || x == w);
                        assert(mine.take(i as int).push(w).contains(x) <==> mine.take(
                            i as int,
                        ).contains(x) || x == w);
                    }
                }
            } else {
                proof {
                    assert forall|x: Seq<char>| #[trigger]
                        common.contains(x) <==> mine.take(i + 1).contains(x) && theirs.contains(
                            x,
                        ) by {
                        broadcast use vstd::seq_lib::group_seq_properties;

                        assert(mine.take(i as int).push(w).contains(x) <==> mine.take(
                            i as int,
                        ).contains(x) || x == w);
                    }
                }
            }
        }
        proof {
            assert(mine.take(mine.len() as int) =~= mine);
            common.unique_seq_to_set();
            mine.unique_seq_to_set();
            assert(common.to_set() =~= self@.intersect(other@));
        }
        n
    }
}

/// A set of words is finite, whichever it is.
pub proof fn law_words_finite(words: Words)
    ensures
        words@.finite(),
{
    broadcast use vstd::seq_lib::seq_to_set_is_finite;

}

/// The strings of `list`, each at its first place, behind the strings of `items`.
fn distinct_union(items: Vec<String>, list: &[String]) -> (all: Vec<String>)
    requires
        texts(items@).no_duplicates(),
    ensures
        texts(all@).no_duplicates(),
        forall|w: Seq<char>| #[trigger]
            texts(all@).contains(w) <==> texts(items@).contains(w) || texts(list@).contains(w),
{
    let mut all = items;
    let ghost start = texts(items@);
    let ghost more = texts(list@);
    for i in 0..list.len()
        invariant
            more == texts(list@),
            texts(all@).no_duplicates(),
            forall|w: Seq<char>| #[trigger]
                texts(all@).contains(w) <==> start.contains(w) || more.take(i as int).contains(w),
    {
        let ghost before = texts(all@);
        let s = list[i].clone();
        assert(more.take(i + 1) =~= more.take(i as int).push(s@));
        if !contains_text(&all, &s) {
            proof {
                lemma_texts_push(all@, s);
            }
            all.push(s);
        }
        proof {
            assert forall|w: Seq<char>| #[trigger]
                texts(all@).contains(w) <==> start.contains(w) || more.take(i + 1).contains(w) by {
                broadcast use vstd::seq_lib::group_seq_properties;

                assert(before.push(s@).contains(w) <==> before.contains(w) || w == s@);
                assert(more.take(i as int).push(s@).contains(w) <==> more.take(i as int).contains(
                    w,
                ) || w == s@);
            }
        }
    }
    assert(more.take(more.len() as int) =~= more);
    all
}

/// The words of a text that is in lower case already.
pub fn words_of_lowercase(lower: &str) -> (words: Words)
    ensures
        words@ == runs_of(lower@).to_set(),
        ascii_words_known(lower@),
{
    let list = keep_at_least(split_at_chars(lower, &Separator::NotWordChar), 2);
    Words::from_list(&list)
}

/// The words of a text, in lower case. Of an ASCII text these are the runs of letters and digits,
/// with the letters `A` to `Z` in lower case.
pub fn tokenize(s: &str) -> (words: Words)
    ensures
        words@ == tokens(s@),
        ascii_words_known(lowercase(s@)),
        is_ascii(s) ==> lowercase(s@) == s@.map_values(|c: char| ascii_lowercase(c)),
{
    let lower = s.to_lowercase();
    words_of_lowercase(&lower)
}

/// The words of a fact. Tags do not count: facts that share a tag need not be alike.
pub open spec fn fact_words(f: FactText) -> Set<Seq<char>> {
    tokens(f.text).union(tokens(f.check))
}

impl Fact {
    /// The words of the text and of the check.
    pub fn words(&self) -> (words: Words)
        ensures
            words@ == fact_words(self@),
    {
        tokenize(&self.text).union(&tokenize(&self.check))
    }
}

} // verus!
