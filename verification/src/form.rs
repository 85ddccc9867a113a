//! What the pieces, the words and the lines of a text have in common.

use vstd::prelude::*;

use crate::text::{
    at_least, is_white, joined, lemma_pieces_lack, lemma_pieces_nonempty, on_one_line, pieces,
    trim_end, trim_start, trimmed, words_of, Separator,
};

verus! {

// ---- pieces ----

/// A separator parts the pieces before it from the pieces behind it.
pub proof fn lemma_pieces_add(a: Seq<char>, c: char, b: Seq<char>, sep: Separator)
    requires
        sep.splits(c),
    ensures
        pieces(a.push(c) + b, sep) == pieces(a, sep) + pieces(b, sep),
    decreases b.len(),
{
    let whole = a.push(c) + b;
    lemma_pieces_nonempty(a, sep);
    if b.len() == 0 {
        assert(whole =~= a.push(c));
        assert(whole.drop_last() =~= a);
        assert(pieces(whole, sep) =~= pieces(a, sep) + pieces(b, sep));
    } else {
        lemma_pieces_add(a, c, b.drop_last(), sep);
        lemma_pieces_nonempty(b.drop_last(), sep);
        assert(whole.drop_last() =~= a.push(c) + b.drop_last());
        assert(whole.last() == b.last());
        assert(pieces(whole, sep) =~= pieces(a, sep) + pieces(b, sep));
    }
}

/// A text without separator is one piece.
pub proof fn lemma_pieces_whole(s: Seq<char>, sep: Separator)
    requires
        forall|i: int| 0 <= i < s.len() ==> !sep.splits(#[trigger] s[i]),
    ensures
        pieces(s, sep) == seq![s],
    decreases s.len(),
{
    if s.len() > 0 {
        let shorter = s.drop_last();
        assert forall|i: int| 0 <= i < shorter.len() implies !sep.splits(#[trigger] shorter[i]) by {
            assert(shorter[i] == s[i]);
        }
        lemma_pieces_whole(shorter, sep);
        assert(!sep.splits(s[s.len() - 1]));
        assert(pieces(s, sep) =~~= seq![s]);
    } else {
        assert(pieces(s, sep) =~~= seq![s]);
    }
}

/// Whether the characters from `a` up to `b` are a piece: none of them is a separator, and there
/// is a separator, or an end of the text, on both sides.
pub open spec fn is_piece_at(s: Seq<char>, sep: Separator, a: int, b: int) -> bool {
    &&& 0 <= a <= b <= s.len()
    &&& forall|i: int| a <= i < b ==> !sep.splits(#[trigger] s[i])
    &&& a == 0 || sep.splits(s[a - 1])
    &&& b == s.len() || sep.splits(s[b])
}

/// Every piece stands in the text; the last one ends it, and no other does.
proof fn lemma_piece_stands(s: Seq<char>, sep: Separator, k: int) -> (range: (int, int))
    requires
        0 <= k < pieces(s, sep).len(),
    ensures
        is_piece_at(s, sep, range.0, range.1),
        pieces(s, sep)[k] == s.subrange(range.0, range.1),
        range.1 == s.len() <==> k == pieces(s, sep).len() - 1,
    decreases s.len(),
{
    let n = s.len() as int;
    if n == 0 {
        assert(s.subrange(0, 0) =~= Seq::<char>::empty());
        (0, 0)
    } else {
        let shorter = s.drop_last();
        let before = pieces(shorter, sep);
        lemma_pieces_nonempty(shorter, sep);
        assert(forall|i: int| 0 <= i < n - 1 ==> shorter[i] == #[trigger] s[i]);
        if sep.splits(s.last()) {
            if k < before.len() {
                let (a, b) = lemma_piece_stands(shorter, sep, k);
                assert(shorter.subrange(a, b) =~= s.subrange(a, b));
                (a, b)
            } else {
                assert(s.subrange(n, n) =~= Seq::<char>::empty());
                (n, n)
            }
        } else {
            let (a, b) = lemma_piece_stands(shorter, sep, k);
            if k < before.len() - 1 {
                assert(shorter.subrange(a, b) =~= s.subrange(a, b));
                (a, b)
            } else {
                assert(shorter.subrange(a, b).push(s.last()) =~= s.subrange(a, n));
                (a, n)
            }
        }
    }
}

/// What stands between separators in the text is a piece; what ends the text is the last one.
proof fn lemma_stands_piece(s: Seq<char>, sep: Separator, a: int, b: int)
    requires
        is_piece_at(s, sep, a, b),
    ensures
        b == s.len() ==> pieces(s, sep).last() == s.subrange(a, b),
        b < s.len() ==> pieces(s, sep).drop_last().contains(s.subrange(a, b)),
        pieces(s, sep).contains(s.subrange(a, b)),
    decreases s.len(),
{
    let n = s.len() as int;
    let all = pieces(s, sep);
    lemma_pieces_nonempty(s, sep);
    if n == 0 {
        assert(s.subrange(a, b) =~= Seq::<char>::empty());
    } else {
        let shorter = s.drop_last();
        let before = pieces(shorter, sep);
        lemma_pieces_nonempty(shorter, sep);
        assert(forall|i: int| 0 <= i < n - 1 ==> shorter[i] == #[trigger] s[i]);
        if b == n {
            if a == b {
                assert(s.subrange(a, b) =~= Seq::<char>::empty());
            } else {
                assert(!sep.splits(s[n - 1]));
                lemma_stands_piece(shorter, sep, a, n - 1);
                assert(shorter.subrange(a, n - 1).push(s.last()) =~= s.subrange(a, b));
            }
        } else {
            lemma_stands_piece(shorter, sep, a, b);
            assert(shorter.subrange(a, b) =~= s.subrange(a, b));
            let list = if b == n - 1 {
                before
            } else {
                before.drop_last()
            };
            assert(list.contains(s.subrange(a, b)));
            let k = choose|k: int| 0 <= k < list.len() && list[k] == s.subrange(a, b);
            assert(all.drop_last()[k] == s.subrange(a, b));
        }
    }
    if b == n {
        assert(all[all.len() - 1] == s.subrange(a, b));
    } else {
        let k = choose|k: int| 0 <= k < all.drop_last().len() && all.drop_last()[k] == s.subrange(
            a,
            b,
        );
        assert(all[k] == s.subrange(a, b));
    }
}

/// The pieces of a text are the longest stretches without separators.
pub proof fn law_pieces(s: Seq<char>, sep: Separator, w: Seq<char>)
    ensures
        pieces(s, sep).contains(w) <==> exists|a: int, b: int| #[trigger]
            is_piece_at(s, sep, a, b) && w == s.subrange(a, b),
{
    if pieces(s, sep).contains(w) {
        let k = choose|k: int| 0 <= k < pieces(s, sep).len() && pieces(s, sep)[k] == w;
        let (a, b) = lemma_piece_stands(s, sep, k);
        assert(is_piece_at(s, sep, a, b) && w == s.subrange(a, b));
    }
    if exists|a: int, b: int| #[trigger] is_piece_at(s, sep, a, b) && w == s.subrange(a, b) {
        let (a, b) = choose|a: int, b: int| #[trigger]
            is_piece_at(s, sep, a, b) && w == s.subrange(a, b);
        lemma_stands_piece(s, sep, a, b);
    }
}

// ---- words ----

/// Whether a text is a word: not empty, and without white space.
pub open spec fn is_word(w: Seq<char>) -> bool {
    w.len() > 0 && forall|i: int| 0 <= i < w.len() ==> !is_white(#[trigger] w[i])
}

pub open spec fn all_words(list: Seq<Seq<char>>) -> bool {
    forall|i: int| 0 <= i < list.len() ==> is_word(#[trigger] list[i])
}

pub proof fn lemma_words_are_words(s: Seq<char>)
    ensures
        all_words(words_of(s)),
{
    let all = pieces(s, Separator::White);
    let words = words_of(s);
    assert forall|i: int| 0 <= i < words.len() implies is_word(#[trigger] words[i]) by {
        all.lemma_filter_pred(at_least(1), i);
        assert(words.contains(words[i]));
        all.lemma_filter_contains_rev(at_least(1), words[i]);
        let k = choose|k: int| 0 <= k < all.len() && all[k] == words[i];
        assert forall|j: int| 0 <= j < words[i].len() implies !is_white(#[trigger] words[i][j]) by {
            lemma_pieces_lack(s, Separator::White, k, j);
        }
    }
}

/// White space parts the words before it from the words behind it.
pub proof fn lemma_words_add(a: Seq<char>, c: char, b: Seq<char>)
    requires
        is_white(c),
    ensures
        words_of(a.push(c) + b) == words_of(a) + words_of(b),
{
    lemma_pieces_add(a, c, b, Separator::White);
    Seq::filter_distributes_over_add(
        pieces(a, Separator::White),
        pieces(b, Separator::White),
        at_least(1),
    );
}

proof fn lemma_words_of_nothing()
    ensures
        words_of(Seq::<char>::empty()) == Seq::<Seq<char>>::empty(),
{
    reveal(Seq::filter);
    let one = seq![Seq::<char>::empty()];
    assert(one.drop_last() =~= Seq::<Seq<char>>::empty());
    assert(one.drop_last().filter(at_least(1)) =~= Seq::<Seq<char>>::empty());
    assert(pieces(Seq::<char>::empty(), Separator::White) =~= one);
}

proof fn lemma_words_of_word(w: Seq<char>)
    requires
        is_word(w),
    ensures
        words_of(w) == seq![w],
{
    reveal(Seq::filter);
    lemma_pieces_whole(w, Separator::White);
    let one = seq![w];
    assert(one.drop_last() =~= Seq::<Seq<char>>::empty());
    assert(one.filter(at_least(1)) =~= one);
}

/// Words with one space between them are the words of that text.
pub proof fn lemma_words_of_joined(list: Seq<Seq<char>>)
    requires
        all_words(list),
    ensures
        words_of(joined(list, " "@)) == list,
    decreases list.len(),
{
    reveal_strlit(" ");
    if list.len() == 0 {
        lemma_words_of_nothing();
    } else if list.len() == 1 {
        lemma_words_of_word(list[0]);
        assert(list =~= seq![list[0]]);
    } else {
        let shorter = list.drop_last();
        assert forall|i: int| 0 <= i < shorter.len() implies is_word(#[trigger] shorter[i]) by {
            assert(shorter[i] == list[i]);
        }
        lemma_words_of_joined(shorter);
        let before = joined(shorter, " "@);
        assert(is_word(list[list.len() - 1]));
        assert(joined(list, " "@) =~= before.push(' ') + list.last());
        lemma_words_add(before, ' ', list.last());
        lemma_words_of_word(list.last());
        assert(words_of(joined(list, " "@)) =~= list);
    }
}

/// Putting a text on one line keeps its words, and what is on one line already stays as it is.
pub proof fn law_one_line_keeps_words(s: Seq<char>)
    ensures
        words_of(on_one_line(s)) == words_of(s),
        on_one_line(on_one_line(s)) == on_one_line(s),
{
    lemma_words_are_words(s);
    lemma_words_of_joined(words_of(s));
}

// ---- the form of a text on one line ----

/// Whether a text is on one line: its white space is single spaces between words.
pub open spec fn is_one_line(s: Seq<char>) -> bool {
    &&& forall|i: int| 0 <= i < s.len() && is_white(#[trigger] s[i]) ==> s[i] == ' '
    &&& forall|i: int| 0 < i < s.len() && s[i - 1] == ' ' ==> #[trigger] s[i] != ' '
    &&& s.len() > 0 ==> !is_white(s[0]) && !is_white(s.last())
}

pub proof fn lemma_joined_words(list: Seq<Seq<char>>)
    requires
        all_words(list),
    ensures
        is_one_line(joined(list, " "@)),
        list.len() > 0 ==> joined(list, " "@).len() > 0,
    decreases list.len(),
{
    reveal_strlit(" ");
    if list.len() == 1 {
        assert(is_word(list[0]));
    } else if list.len() > 1 {
        let shorter = list.drop_last();
        assert forall|i: int| 0 <= i < shorter.len() implies is_word(#[trigger] shorter[i]) by {
            assert(shorter[i] == list[i]);
        }
        lemma_joined_words(shorter);
        let a = joined(shorter, " "@);
        let w = list.last();
        assert(is_word(list[list.len() - 1]));
        let s = joined(list, " "@);
        assert(s =~= a.push(' ') + w);
        assert forall|i: int| 0 <= i < s.len() && is_white(#[trigger] s[i]) implies s[i] == ' ' by {
            if i < a.len() {
                assert(s[i] == a[i]);
            } else if i > a.len() {
                assert(s[i] == w[i - a.len() - 1]);
            }
        }
        assert forall|i: int| 0 < i < s.len() && s[i - 1] == ' ' implies #[trigger] s[i]
            != ' ' by {
            if i < a.len() {
                assert(s[i] == a[i] && s[i - 1] == a[i - 1]);
            } else if i == a.len() {
                assert(s[i - 1] == a.last());
            } else if i > a.len() {
                assert(s[i] == w[i - a.len() - 1]);
            }
        }
        assert(s[0] == a[0]);
        assert(s.last() == w.last());
        assert(w.last() == w[w.len() - 1]);
    }
}

/// A text on one line has no white space but single spaces between words.
pub proof fn law_one_line_form(s: Seq<char>)
    ensures
        is_one_line(on_one_line(s)),
{
    lemma_words_are_words(s);
    lemma_joined_words(words_of(s));
}

/// A text on one line is two such texts with a space between them.
proof fn lemma_one_line_split(s: Seq<char>, k: int)
    requires
        is_one_line(s),
        0 <= k < s.len(),
        s[k] == ' ',
    ensures
        0 < k < s.len() - 1,
        is_one_line(s.take(k)),
        is_one_line(s.skip(k + 1)),
        s =~= s.take(k).push(' ') + s.skip(k + 1),
{
    assert(is_white(' '));
    let a = s.take(k);
    let b = s.skip(k + 1);
    assert forall|i: int| 0 < i < a.len() && a[i - 1] == ' ' implies #[trigger] a[i] != ' ' by {
        assert(s[i] == a[i] && s[i - 1] == a[i - 1]);
    }
    assert forall|i: int| 0 < i < b.len() && b[i - 1] == ' ' implies #[trigger] b[i] != ' ' by {
        assert(s[i + k + 1] == b[i] && s[i + k] == b[i - 1]);
    }
    assert forall|i: int| 0 <= i < b.len() && is_white(#[trigger] b[i]) implies b[i] == ' ' by {
        assert(s[i + k + 1] == b[i]);
    }
    assert(s[k + 1] != ' ');
    assert(s[k - 1] != ' ') by {
        if s[k - 1] == ' ' {
            assert(s[k] != ' ');
        }
    }
    assert(!is_white(s[k + 1]));
    assert(!is_white(s[k - 1]));
    assert(a.last() == s[k - 1]);
    assert(b[0] == s[k + 1]);
    assert(b.last() == s.last());
}

/// The texts on one line are those that putting them on one line leaves as they are.
pub proof fn law_one_line_fixed(s: Seq<char>)
    ensures
        is_one_line(s) <==> on_one_line(s) == s,
    decreases s.len(),
{
    law_one_line_form(s);
    if is_one_line(s) {
        lemma_one_line_fixed(s);
    }
}

proof fn lemma_one_line_fixed(s: Seq<char>)
    requires
        is_one_line(s),
    ensures
        on_one_line(s) == s,
    decreases s.len(),
{
    reveal_strlit(" ");
    if s.len() == 0 {
        lemma_words_of_nothing();
        assert(s =~= Seq::<char>::empty());
    } else if forall|i: int| 0 <= i < s.len() ==> !is_white(#[trigger] s[i]) {
        lemma_words_of_word(s);
    } else {
        let k = choose|k: int| 0 <= k < s.len() && is_white(#[trigger] s[k]);
        lemma_one_line_split(s, k);
        let a = s.take(k);
        let b = s.skip(k + 1);
        lemma_one_line_fixed(a);
        lemma_one_line_fixed(b);
        lemma_words_add(a, ' ', b);
        lemma_words_present(a);
        lemma_words_present(b);
        lemma_joined_add(words_of(a), words_of(b), " "@);
        assert(on_one_line(s) =~= s);
    }
}

/// Joining two lists that are not empty puts a separator between what they give.
pub proof fn lemma_joined_add(a: Seq<Seq<char>>, b: Seq<Seq<char>>, sep: Seq<char>)
    requires
        a.len() > 0,
        b.len() > 0,
    ensures
        joined(a + b, sep) == joined(a, sep) + sep + joined(b, sep),
    decreases b.len(),
{
    let all = a + b;
    assert(all.last() == b.last());
    assert(all.drop_last() =~= a + b.drop_last());
    if b.len() == 1 {
        assert(all.drop_last() =~= a);
    } else {
        lemma_joined_add(a, b.drop_last(), sep);
    }
    assert(joined(all, sep) =~= joined(a, sep) + sep + joined(b, sep));
}

/// A text without words is white space.
pub proof fn lemma_no_words(s: Seq<char>)
    requires
        words_of(s).len() == 0,
    ensures
        forall|i: int| 0 <= i < s.len() ==> is_white(#[trigger] s[i]),
    decreases s.len(),
{
    if s.len() > 0 {
        let before = pieces(s.drop_last(), Separator::White);
        lemma_pieces_nonempty(s.drop_last(), Separator::White);
        let all = pieces(s, Separator::White);
        reveal(Seq::filter);
        assert(all.filter(at_least(1)).len() == 0);
        if is_white(s.last()) {
            assert(all.drop_last() =~= before);
            lemma_no_words(s.drop_last());
            assert forall|i: int| 0 <= i < s.len() implies is_white(#[trigger] s[i]) by {
                if i < s.len() - 1 {
                    assert(s.drop_last()[i] == s[i]);
                }
            }
        } else {
            assert(all.last().len() > 0);
            assert(false);
        }
    }
}

proof fn lemma_words_present(s: Seq<char>)
    requires
        s.len() > 0,
        !is_white(s[0]),
    ensures
        words_of(s).len() > 0,
{
    if words_of(s).len() == 0 {
        lemma_no_words(s);
    }
}

// ---- trimming ----

proof fn lemma_trim_start_words(s: Seq<char>)
    ensures
        words_of(trim_start(s)) == words_of(s),
        trim_start(s).len() > 0 ==> !is_white(trim_start(s)[0]),
        trim_start(s).len() <= s.len(),
    decreases s.len(),
{
    if s.len() > 0 && is_white(s[0]) {
        lemma_trim_start_words(s.drop_first());
        let nothing = Seq::<char>::empty();
        assert(s =~= nothing.push(s[0]) + s.drop_first());
        lemma_words_add(nothing, s[0], s.drop_first());
        lemma_words_of_nothing();
        assert(words_of(s) =~= words_of(s.drop_first()));
    }
}

proof fn lemma_trim_end_words(s: Seq<char>)
    ensures
        words_of(trim_end(s)) == words_of(s),
        trim_end(s).len() > 0 ==> !is_white(trim_end(s).last()) && trim_end(s)[0] == s[0],
        trim_end(s).len() <= s.len(),
        s.len() > 0 && !is_white(s[0]) ==> trim_end(s).len() > 0,
    decreases s.len(),
{
    if s.len() > 0 && is_white(s.last()) {
        lemma_trim_end_words(s.drop_last());
        let nothing = Seq::<char>::empty();
        assert(s =~= s.drop_last().push(s.last()) + nothing);
        lemma_words_add(s.drop_last(), s.last(), nothing);
        lemma_words_of_nothing();
        assert(words_of(s) =~= words_of(s.drop_last()));
        if s.len() > 1 {
            assert(s.drop_last()[0] == s[0]);
        }
    }
}

/// Trimming keeps the words of a text and leaves no white space at its ends; nothing is left
/// exactly if there are no words.
pub proof fn law_trimmed(s: Seq<char>)
    ensures
        words_of(trimmed(s)) == words_of(s),
        trimmed(s).len() > 0 ==> !is_white(trimmed(s)[0]) && !is_white(trimmed(s).last()),
        trimmed(trimmed(s)) == trimmed(s),
        trimmed(s).len() == 0 <==> words_of(s).len() == 0,
        on_one_line(trimmed(s)) == on_one_line(s),
{
    let t = trim_start(s);
    lemma_trim_start_words(s);
    lemma_trim_end_words(t);
    let u = trimmed(s);
    if u.len() > 0 {
        assert(!is_white(u[0]));
        lemma_words_present(u);
    } else {
        assert(u =~= Seq::<char>::empty());
        lemma_words_of_nothing();
    }
}

/// Trimming keeps what a text starts with, unless that is white space.
pub proof fn lemma_trimmed_first(s: Seq<char>)
    requires
        s.len() > 0,
        !is_white(s[0]),
    ensures
        trimmed(s).len() > 0,
        trimmed(s)[0] == s[0],
{
    lemma_trim_end_words(s);
}

/// A text without white space at its ends is trimmed already.
pub proof fn lemma_trimmed_is(s: Seq<char>)
    requires
        s.len() > 0 ==> !is_white(s[0]) && !is_white(s.last()),
    ensures
        trimmed(s) == s,
{
}

/// Nothing is left of a text on one line exactly if nothing is left of it when it is trimmed.
pub proof fn law_one_line_empty(s: Seq<char>)
    ensures
        on_one_line(s).len() == 0 <==> trimmed(s).len() == 0,
{
    law_trimmed(s);
    lemma_words_are_words(s);
    lemma_joined_words(words_of(s));
}

proof fn lemma_joined_pieces_len(s: Seq<char>)
    ensures
        joined(pieces(s, Separator::White), " "@).len() == s.len(),
    decreases s.len(),
{
    reveal_strlit(" ");
    let all = pieces(s, Separator::White);
    if s.len() > 0 {
        lemma_joined_pieces_len(s.drop_last());
        let before = pieces(s.drop_last(), Separator::White);
        lemma_pieces_nonempty(s.drop_last(), Separator::White);
        if is_white(s.last()) {
            assert(all.drop_last() =~= before);
        } else {
            assert(all.drop_last() =~= before.drop_last());
        }
    }
}

proof fn lemma_joined_filter_len(list: Seq<Seq<char>>)
    ensures
        joined(list.filter(at_least(1)), " "@).len() <= joined(list, " "@).len(),
        list.filter(at_least(1)).len() == 0 || joined(list, " "@).len() > 0 || list.len() == 0,
    decreases list.len(),
{
    reveal(Seq::filter);
    reveal_strlit(" ");
    if list.len() > 0 {
        let shorter = list.drop_last();
        lemma_joined_filter_len(shorter);
        let kept = shorter.filter(at_least(1));
        if list.last().len() >= 1 {
            assert(list.filter(at_least(1)) =~= kept.push(list.last()));
            assert(kept.push(list.last()).drop_last() =~= kept);
            if shorter.len() == 0 {
                assert(kept.len() == 0);
            }
        }
    }
}

/// Putting a text on one line makes it no longer than trimming it does.
pub proof fn law_one_line_length(s: Seq<char>)
    ensures
        on_one_line(s).len() <= trimmed(s).len(),
{
    law_trimmed(s);
    lemma_joined_pieces_len(trimmed(s));
    lemma_joined_filter_len(pieces(trimmed(s), Separator::White));
}

} // verus!
