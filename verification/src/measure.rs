//! What the measures mean: how alike two sets of words are, and which of two strings comes first.

use vstd::prelude::*;

use crate::fact::FactText;
use crate::order::text_before;
use crate::rank::{is_near, law_ranking, ranking, score_of, score_reaches, Score};
use crate::words::{fact_words, tokens};

verus! {

/// The overlap counts the shared words, of the words of the smaller set. So a set of words that lies
/// in another has the largest overlap with it, however large the other is.
pub proof fn law_share_of_smaller(a: Set<Seq<char>>, b: Set<Seq<char>>)
    requires
        a.finite(),
        b.finite(),
        a.len() > 0,
        b.len() > 0,
    ensures
        score_of(a, b).shared == a.intersect(b).len(),
        a.len() <= b.len() ==> score_of(a, b).of == a.len(),
        b.len() <= a.len() ==> score_of(a, b).of == b.len(),
        a.subset_of(b) ==> score_of(a, b).shared == score_of(a, b).of,
{
    if a.subset_of(b) {
        assert(a.intersect(b) =~= a);
        vstd::set_lib::lemma_len_subset(a, b);
    }
}

/// Without words there is no overlap.
pub proof fn law_no_words_no_share(a: Set<Seq<char>>, b: Set<Seq<char>>)
    requires
        a.finite(),
        b.finite(),
        a.len() == 0 || b.len() == 0,
    ensures
        score_of(a, b) == (Score { shared: 0, of: 1 }),
        !is_near(score_of(a, b)),
{
}

/// Near is one half or more, and overlaps are compared as the fractions that they are.
pub proof fn law_fractions(a: Score, b: Score)
    ensures
        is_near(a) <==> a.shared + a.shared >= a.of,
        score_reaches(a, b) <==> a.shared * b.of >= b.shared * a.of,
        a.of == b.of && a.shared >= b.shared ==> score_reaches(a, b),
        a.of == b.of && a.of > 0 && a.shared < b.shared ==> !score_reaches(a, b),
        a.shared == b.shared && a.of <= b.of ==> score_reaches(a, b),
{
    if a.of == b.of && a.shared >= b.shared {
        assert(a.shared * b.of >= b.shared * a.of) by (nonlinear_arith)
            requires
                a.of == b.of,
                a.shared >= b.shared,
        ;
    }
    if a.of == b.of && a.of > 0 && a.shared < b.shared {
        assert(a.shared * b.of < b.shared * a.of) by (nonlinear_arith)
            requires
                a.of == b.of,
                a.of > 0,
                a.shared < b.shared,
        ;
    }
    if a.shared == b.shared && a.of <= b.of {
        assert(a.shared * b.of >= b.shared * a.of) by (nonlinear_arith)
            requires
                a.shared == b.shared,
                a.of <= b.of,
        ;
    }
}

/// The words of a fact are those of its text and those of its check; its id, tags and date have no
/// say.
pub proof fn law_words_of_fact(f: FactText, w: Seq<char>)
    ensures
        fact_words(f).contains(w) <==> tokens(f.text).contains(w) || tokens(f.check).contains(w),
{
}

/// A string comes before another if it is a part at the front of it, or has the smaller character at
/// the first place where they differ.
pub proof fn law_text_order(a: Seq<char>, b: Seq<char>, i: int)
    requires
        0 <= i <= a.len(),
        i <= b.len(),
        forall|j: int| 0 <= j < i ==> #[trigger] a[j] == b[j],
    ensures
        i == a.len() ==> (text_before(a, b) <==> i < b.len()),
        i == b.len() ==> !text_before(a, b),
        i < a.len() && i < b.len() && a[i] < b[i] ==> text_before(a, b),
        i < a.len() && i < b.len() && a[i] > b[i] ==> !text_before(a, b),
    decreases i,
{
    if i > 0 {
        assert(a[0] == b[0]);
        let c = a.drop_first();
        let d = b.drop_first();
        assert forall|j: int| 0 <= j < i - 1 implies #[trigger] c[j] == d[j] by {
            assert(a[j + 1] == b[j + 1]);
        }
        law_text_order(c, d, i - 1);
        if i < a.len() {
            assert(c[i - 1] == a[i]);
        }
        if i < b.len() {
            assert(d[i - 1] == b[i]);
        }
    }
}

/// In a ranking no entry stands behind one with a smaller overlap, and of two with the same overlap
/// the fact that comes first in the store comes first.
pub proof fn law_best_first(facts: Seq<FactText>, query: Set<Seq<char>>, i: int, j: int)
    requires
        facts.len() <= usize::MAX,
        query.finite(),
        0 <= i < j < ranking(facts, query).len(),
    ensures
        ({
            let a = ranking(facts, query)[i];
            let b = ranking(facts, query)[j];
            &&& a.0.shared * b.0.of >= b.0.shared * a.0.of
            &&& a.0.shared * b.0.of == b.0.shared * a.0.of ==> a.1 < b.1
        }),
{
    law_ranking(facts, query);
}

} // verus!
