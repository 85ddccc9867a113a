//! Strings as sequences of characters: splitting, trimming and joining.

use vstd::prelude::*;
use vstd::slice::slice_subrange;

verus! {

// ---- what the standard library provides ----

/// `String::push` appends the given character to the end of the string.
pub assume_specification[ String::push ](s: &mut String, c: char)
    ensures
        final(s)@ == old(s)@.push(c),
;

/// The characters with the Unicode property `White_Space`.
pub open spec fn is_white(c: char) -> bool {
    ||| '\u{9}' <= c <= '\u{d}'
    ||| c == '\u{20}'
    ||| c == '\u{85}'
    ||| c == '\u{a0}'
    ||| c == '\u{1680}'
    ||| '\u{2000}' <= c <= '\u{200a}'
    ||| c == '\u{2028}'
    ||| c == '\u{2029}'
    ||| c == '\u{202f}'
    ||| c == '\u{205f}'
    ||| c == '\u{3000}'
}

/// `char::is_whitespace` tells whether a character has the Unicode property `White_Space`.
pub assume_specification[ char::is_whitespace ](c: char) -> (white: bool)
    ensures
        white == is_white(c),
;

/// The ASCII letters and digits.
pub open spec fn is_ascii_word_char(c: char) -> bool {
    ('a' <= c <= 'z') || ('A' <= c <= 'Z') || ('0' <= c <= '9')
}

/// The result of `char::is_alphanumeric`: the Unicode letters and numbers.
pub uninterp spec fn is_word_char(c: char) -> bool;

/// `char::is_alphanumeric` depends on the character alone; of the ASCII characters it accepts
/// exactly the letters and the digits.
pub assume_specification[ char::is_alphanumeric ](c: char) -> (word: bool)
    ensures
        word == is_word_char(c),
        c <= '\u{7f}' ==> word == is_ascii_word_char(c),
;

// ---- vectors of strings ----

/// The contents of a sequence of strings.
pub open spec fn texts(v: Seq<String>) -> Seq<Seq<char>> {
    v.map_values(|s: String| s@)
}

pub proof fn lemma_texts_push(v: Seq<String>, s: String)
    ensures
        texts(v.push(s)) == texts(v).push(s@),
{
    assert(texts(v.push(s)) =~= texts(v).push(s@));
}

/// Appends a string to a list.
pub fn push_text(list: &mut Vec<String>, s: String)
    ensures
        texts(final(list)@) == texts(old(list)@).push(s@),
{
    proof {
        lemma_texts_push(list@, s);
    }
    list.push(s);
}

/// The characters of a string.
pub fn chars_of(s: &str) -> (chars: Vec<char>)
    ensures
        chars@ == s@,
{
    let mut chars: Vec<char> = Vec::new();
    for c in it: s.chars()
        invariant
            chars@ == s@.take(it.index() as int),
            it.seq() == s@,
    {
        chars.push(c);
    }
    chars
}

/// The string made of the given characters.
pub fn string_of(chars: &[char]) -> (s: String)
    ensures
        s@ == chars@,
{
    let mut s = String::new();
    for i in 0..chars.len()
        invariant
            s@ == chars@.take(i as int),
    {
        s.push(chars[i]);
    }
    s
}

/// Whether two strings hold the same characters.
pub fn same(a: &str, b: &str) -> (equal: bool)
    ensures
        equal == (a@ == b@),
{
    let x = chars_of(a);
    let y = chars_of(b);
    if x.len() != y.len() {
        return false;
    }
    for i in 0..x.len()
        invariant
            x@.len() == y@.len(),
            x@ == a@,
            y@ == b@,
            forall|j: int| 0 <= j < i ==> x@[j] == y@[j],
    {
        if x[i] != y[i] {
            return false;
        }
    }
    assert(x@ =~= y@);
    true
}

/// Whether `list` holds `needle`.
pub fn contains_text(list: &[String], needle: &str) -> (found: bool)
    ensures
        found == texts(list@).contains(needle@),
{
    for i in 0..list.len()
        invariant
            forall|j: int| 0 <= j < i ==> texts(list@)[j] != needle@,
    {
        if same(&list[i], needle) {
            assert(texts(list@)[i as int] == needle@);
            return true;
        }
    }
    false
}

/// A copy of a list of strings.
pub fn copy_texts(list: &[String]) -> (copy: Vec<String>)
    ensures
        texts(copy@) == texts(list@),
{
    let mut copy: Vec<String> = Vec::new();
    for i in 0..list.len()
        invariant
            texts(copy@) == texts(list@).take(i as int),
    {
        let ghost before = copy@;
        let s = list[i].clone();
        copy.push(s);
        proof {
            lemma_texts_push(before, s);
        }
        assert(texts(list@).take(i + 1) =~= texts(list@).take(i as int).push(list@[i as int]@));
    }
    assert(texts(list@).take(list@.len() as int) =~= texts(list@));
    copy
}

/// Whether two lists hold the same strings in the same order.
pub fn same_texts(a: &[String], b: &[String]) -> (equal: bool)
    ensures
        equal == (texts(a@) == texts(b@)),
{
    if a.len() != b.len() {
        assert(texts(a@).len() != texts(b@).len());
        return false;
    }
    for i in 0..a.len()
        invariant
            a@.len() == b@.len(),
            forall|j: int| 0 <= j < i ==> texts(a@)[j] == texts(b@)[j],
    {
        if !same(&a[i], &b[i]) {
            assert(texts(a@)[i as int] != texts(b@)[i as int]);
            return false;
        }
    }
    assert(texts(a@) =~= texts(b@));
    true
}

// ---- splitting at single characters ----

/// The characters at which a string is split.
#[derive(Debug)]
pub enum Separator {
    /// Any white space.
    White,
    /// Anything but a letter or a number.
    NotWordChar,
    /// The given character.
    Is(char),
}

impl Separator {
    pub open spec fn splits(self, c: char) -> bool {
        match self {
            Separator::White => is_white(c),
            Separator::NotWordChar => !is_word_char(c),
            Separator::Is(d) => c == d,
        }
    }

    pub fn matches(&self, c: char) -> (hit: bool)
        ensures
            hit == self.splits(c),
            *self is NotWordChar && c <= '\u{7f}' ==> is_word_char(c) == is_ascii_word_char(c),
    {
        match self {
            Separator::White => c.is_whitespace(),
            Separator::NotWordChar => !c.is_alphanumeric(),
            Separator::Is(d) => c == *d,
        }
    }
}

/// The pieces of `s` between separators: one more than there are separators.
pub open spec fn pieces(s: Seq<char>, sep: Separator) -> Seq<Seq<char>>
    decreases s.len(),
{
    if s.len() == 0 {
        seq![Seq::empty()]
    } else {
        let before = pieces(s.drop_last(), sep);
        if sep.splits(s.last()) {
            before.push(Seq::empty())
        } else {
            before.drop_last().push(before.last().push(s.last()))
        }
    }
}

pub proof fn lemma_pieces_nonempty(s: Seq<char>, sep: Separator)
    ensures
        pieces(s, sep).len() >= 1,
    decreases s.len(),
{
    if s.len() > 0 {
        lemma_pieces_nonempty(s.drop_last(), sep);
    }
}

/// No piece holds a separator.
pub proof fn lemma_pieces_lack(s: Seq<char>, sep: Separator, i: int, j: int)
    requires
        0 <= i < pieces(s, sep).len(),
        0 <= j < pieces(s, sep)[i].len(),
    ensures
        !sep.splits(pieces(s, sep)[i][j]),
    decreases s.len(),
{
    if s.len() > 0 {
        let before = pieces(s.drop_last(), sep);
        lemma_pieces_nonempty(s.drop_last(), sep);
        if i < before.len() && j < before[i].len() {
            lemma_pieces_lack(s.drop_last(), sep, i, j);
        }
    }
}

/// Whether the ASCII characters of a text are word characters exactly if they are letters or
/// digits.
pub open spec fn ascii_words_known(s: Seq<char>) -> bool {
    forall|i: int|
        0 <= i < s.len() && (#[trigger] s[i]) <= '\u{7f}' ==> is_word_char(s[i])
            == is_ascii_word_char(s[i])
}

/// Splits a string at every separator.
pub fn split_at_chars(s: &str, sep: &Separator) -> (parts: Vec<String>)
    ensures
        texts(parts@) == pieces(s@, *sep),
        *sep is NotWordChar ==> ascii_words_known(s@),
{
    let chars = chars_of(s);
    let mut parts: Vec<String> = Vec::new();
    let mut current = String::new();
    assert(pieces(chars@.take(0), *sep) =~= texts(parts@).push(current@));
    for i in 0..chars.len()
        invariant
            chars@ == s@,
            pieces(chars@.take(i as int), *sep) == texts(parts@).push(current@),
            *sep is NotWordChar ==> ascii_words_known(chars@.take(i as int)),
    {
        let c = chars[i];
        assert(chars@.take(i + 1).drop_last() =~= chars@.take(i as int));
        let ghost whole = pieces(chars@.take(i as int), *sep);
        assert(whole.drop_last() =~= texts(parts@));
        if sep.matches(c) {
            proof {
                lemma_texts_push(parts@, current);
            }
            parts.push(current);
            current = String::new();
        } else {
            current.push(c);
        }
        assert(pieces(chars@.take(i + 1), *sep) =~= texts(parts@).push(current@));
        assert forall|k: int|
            0 <= k < i + 1 && (#[trigger] chars@.take(i + 1)[k]) <= '\u{7f}'
                && *sep is NotWordChar implies is_word_char(chars@[k]) == is_ascii_word_char(
            chars@[k],
        ) by {
            if k < i {
                assert(chars@.take(i as int)[k] == chars@[k]);
            }
        }
    }
    assert(chars@.take(chars@.len() as int) =~= chars@);
    proof {
        lemma_texts_push(parts@, current);
    }
    parts.push(current);
    parts
}

pub open spec fn at_least(n: nat) -> spec_fn(Seq<char>) -> bool {
    |p: Seq<char>| p.len() >= n
}

/// The strings of a list that have at least `n` characters.
pub fn keep_at_least(list: Vec<String>, n: usize) -> (kept: Vec<String>)
    ensures
        texts(kept@) == texts(list@).filter(at_least(n as nat)),
{
    let mut kept: Vec<String> = Vec::new();
    proof {
        reveal(Seq::filter);
    }
    for i in 0..list.len()
        invariant
            texts(kept@) == texts(list@).take(i as int).filter(at_least(n as nat)),
    {
        let ghost t = texts(list@).take(i + 1);
        assert(t.drop_last() =~= texts(list@).take(i as int));
        proof {
            reveal(Seq::filter);
        }
        let s = list[i].clone();
        if char_count(&s) >= n {
            proof {
                lemma_texts_push(kept@, s);
            }
            kept.push(s);
        }
    }
    assert(texts(list@).take(list@.len() as int) =~= texts(list@));
    kept
}

/// The number of characters of a string.
pub fn char_count(s: &str) -> (n: usize)
    ensures
        n == s@.len(),
{
    s.unicode_len()
}

/// The words of `s`: the pieces between white space that are not empty.
pub open spec fn words_of(s: Seq<char>) -> Seq<Seq<char>> {
    pieces(s, Separator::White).filter(at_least(1))
}

pub fn split_words(s: &str) -> (words: Vec<String>)
    ensures
        texts(words@) == words_of(s@),
{
    keep_at_least(split_at_chars(s, &Separator::White), 1)
}

// ---- trimming ----

pub open spec fn trim_start(s: Seq<char>) -> Seq<char>
    decreases s.len(),
{
    if s.len() > 0 && is_white(s[0]) {
        trim_start(s.drop_first())
    } else {
        s
    }
}

pub open spec fn trim_end(s: Seq<char>) -> Seq<char>
    decreases s.len(),
{
    if s.len() > 0 && is_white(s.last()) {
        trim_end(s.drop_last())
    } else {
        s
    }
}

/// `s` without the white space at its two ends.
pub open spec fn trimmed(s: Seq<char>) -> Seq<char> {
    trim_end(trim_start(s))
}

pub fn trim(s: &str) -> (t: String)
    ensures
        t@ == trimmed(s@),
{
    let chars = chars_of(s);
    let mut from: usize = 0;
    assert(chars@.skip(0) =~= chars@);
    while from < chars.len() && chars[from].is_whitespace()
        invariant
            from <= chars@.len(),
            trim_start(chars@) == trim_start(chars@.skip(from as int)),
        decreases chars@.len() - from,
    {
        assert(chars@.skip(from as int).drop_first() =~= chars@.skip(from + 1));
        from = from + 1;
    }
    assert(trim_start(chars@) == chars@.skip(from as int));
    let mut to: usize = chars.len();
    assert(chars@.subrange(from as int, to as int) =~= chars@.skip(from as int));
    while from < to && chars[to - 1].is_whitespace()
        invariant
            from <= to <= chars@.len(),
            trimmed(chars@) == trim_end(chars@.subrange(from as int, to as int)),
        decreases to,
    {
        assert(chars@.subrange(from as int, to as int).drop_last() =~= chars@.subrange(
            from as int,
            to - 1,
        ));
        to = to - 1;
    }
    string_of(slice_subrange(chars.as_slice(), from, to))
}

/// The given texts without the white space at their ends.
pub open spec fn all_trimmed(list: Seq<Seq<char>>) -> Seq<Seq<char>> {
    list.map_values(|s: Seq<char>| trimmed(s))
}

pub fn trim_all(list: &[String]) -> (out: Vec<String>)
    ensures
        texts(out@) == all_trimmed(texts(list@)),
{
    let mut out: Vec<String> = Vec::new();
    for i in 0..list.len()
        invariant
            texts(out@) == all_trimmed(texts(list@)).take(i as int),
    {
        let t = trim(&list[i]);
        proof {
            lemma_texts_push(out@, t);
        }
        out.push(t);
        assert(all_trimmed(texts(list@)).take(i + 1) =~= all_trimmed(texts(list@)).take(
            i as int,
        ).push(t@));
    }
    assert(all_trimmed(texts(list@)).take(list@.len() as int) =~= all_trimmed(texts(list@)));
    out
}

/// Appends the strings of `more` to `list`.
pub fn extend_texts(list: &mut Vec<String>, more: &[String])
    ensures
        texts(final(list)@) == texts(old(list)@) + texts(more@),
{
    for i in 0..more.len()
        invariant
            texts(list@) == texts(old(list)@) + texts(more@).take(i as int),
    {
        let s = more[i].clone();
        proof {
            lemma_texts_push(list@, s);
        }
        list.push(s);
        assert(texts(list@) =~= texts(old(list)@) + texts(more@).take(i + 1));
    }
    assert(texts(more@).take(more@.len() as int) =~= texts(more@));
}

// ---- joining ----

/// The parts in order, with `sep` between neighbours.
pub open spec fn joined(parts: Seq<Seq<char>>, sep: Seq<char>) -> Seq<char>
    decreases parts.len(),
{
    if parts.len() == 0 {
        Seq::empty()
    } else if parts.len() == 1 {
        parts[0]
    } else {
        joined(parts.drop_last(), sep) + sep + parts.last()
    }
}

pub fn join(parts: &[String], sep: &str) -> (s: String)
    ensures
        s@ == joined(texts(parts@), sep@),
{
    let mut s = String::new();
    for i in 0..parts.len()
        invariant
            s@ == joined(texts(parts@).take(i as int), sep@),
    {
        let ghost t = texts(parts@).take(i + 1);
        assert(t.drop_last() =~= texts(parts@).take(i as int));
        assert(t.last() == parts@[i as int]@);
        if i > 0 {
            s.append(sep);
        }
        s.append(&parts[i]);
    }
    assert(texts(parts@).take(parts@.len() as int) =~= texts(parts@));
    s
}

/// The words of `s` with one space between neighbours.
pub open spec fn on_one_line(s: Seq<char>) -> Seq<char> {
    joined(words_of(s), " "@)
}

/// Puts a text on one line: every run of white space becomes one space, none is left at the
/// ends.
pub fn one_line(s: &str) -> (line: String)
    ensures
        line@ == on_one_line(s@),
{
    let words = split_words(s);
    join(&words, " ")
}

// ---- lines ----

/// A line without the carriage return at its end.
pub open spec fn without_return(line: Seq<char>) -> Seq<char> {
    if line.len() > 0 && line.last() == '\r' {
        line.drop_last()
    } else {
        line
    }
}

pub open spec fn without_returns(lines: Seq<Seq<char>>) -> Seq<Seq<char>> {
    lines.map_values(|l: Seq<char>| without_return(l))
}

/// The lines of a text. A line ends with a line feed, or with a carriage return and a line feed;
/// the last line needs no ending.
pub open spec fn lines_of(s: Seq<char>) -> Seq<Seq<char>> {
    let p = pieces(s, Separator::Is('\n'));
    let ended = without_returns(p.drop_last());
    if p.last().len() == 0 {
        ended
    } else {
        ended.push(p.last())
    }
}

fn drop_return(line: &str) -> (stripped: String)
    ensures
        stripped@ == without_return(line@),
{
    let chars = chars_of(line);
    if chars.len() > 0 && chars[chars.len() - 1] == '\r' {
        assert(chars@.drop_last() =~= chars@.subrange(0, chars@.len() - 1));
        string_of(slice_subrange(chars.as_slice(), 0, chars.len() - 1))
    } else {
        string_of(chars.as_slice())
    }
}

/// Splits a text into its lines.
pub fn lines(s: &str) -> (list: Vec<String>)
    ensures
        texts(list@) == lines_of(s@),
{
    let mut parts = split_at_chars(s, &Separator::Is('\n'));
    let ghost p = texts(parts@);
    proof {
        lemma_pieces_nonempty(s@, Separator::Is('\n'));
    }
    let mut list: Vec<String> = Vec::new();
    let n = parts.len() - 1;
    for i in 0..n
        invariant
            n == parts@.len() - 1,
            texts(parts@) == p,
            texts(list@) == without_returns(p.drop_last()).take(i as int),
    {
        let line = drop_return(&parts[i]);
        proof {
            lemma_texts_push(list@, line);
        }
        list.push(line);
        assert(without_returns(p.drop_last()).take(i + 1) =~= without_returns(p.drop_last()).take(
            i as int,
        ).push(line@));
    }
    assert(without_returns(p.drop_last()).take(n as int) =~= without_returns(p.drop_last()));
    let last = parts[n].clone();
    assert(last@ == p.last());
    if !last.as_str().is_empty() {
        proof {
            lemma_texts_push(list@, last);
        }
        list.push(last);
    }
    list
}

} // verus!
