//! Looking for one string inside another.

use vstd::prelude::*;
use vstd::slice::slice_subrange;

use crate::text::{chars_of, lemma_texts_push, string_of, texts};

verus! {

/// Whether `pat` stands in `s` at position `i`.
pub open spec fn occurs_at(s: Seq<char>, pat: Seq<char>, i: int) -> bool {
    0 <= i && i + pat.len() <= s.len() && s.subrange(i, i + pat.len()) == pat
}

/// The first position, from `i` on, at which `pat` stands in `s`.
pub open spec fn index_from(s: Seq<char>, pat: Seq<char>, i: int) -> Option<int>
    decreases s.len() + 1 - i,
{
    if i < 0 || i + pat.len() > s.len() {
        None
    } else if occurs_at(s, pat, i) {
        Some(i)
    } else {
        index_from(s, pat, i + 1)
    }
}

/// The first position at which `pat` stands in `s`.
pub open spec fn index_in(s: Seq<char>, pat: Seq<char>) -> Option<int> {
    index_from(s, pat, 0)
}

pub proof fn lemma_index_from(s: Seq<char>, pat: Seq<char>, i: int)
    requires
        0 <= i,
    ensures
        match index_from(s, pat, i) {
            Some(k) => {
                &&& i <= k
                &&& occurs_at(s, pat, k)
                &&& forall|j: int| i <= j < k ==> !occurs_at(s, pat, j)
            },
            None => forall|j: int| i <= j ==> !occurs_at(s, pat, j),
        },
    decreases s.len() + 1 - i,
{
    if i + pat.len() <= s.len() && !occurs_at(s, pat, i) {
        lemma_index_from(s, pat, i + 1);
    }
}

/// The first position is the one at which `pat` stands and before which it does not.
pub proof fn lemma_index_is(s: Seq<char>, pat: Seq<char>, k: int)
    requires
        occurs_at(s, pat, k),
        forall|j: int| 0 <= j < k ==> !occurs_at(s, pat, j),
    ensures
        index_in(s, pat) == Some(k),
{
    lemma_index_from(s, pat, 0);
}

pub proof fn lemma_index_none(s: Seq<char>, pat: Seq<char>)
    requires
        forall|j: int| 0 <= j ==> !occurs_at(s, pat, j),
    ensures
        index_in(s, pat) == None::<int>,
{
    lemma_index_from(s, pat, 0);
}

pub fn stands_at(s: &[char], pat: &[char], i: usize) -> (hit: bool)
    ensures
        hit == occurs_at(s@, pat@, i as int),
{
    if i > s.len() || pat.len() > s.len() - i {
        return false;
    }
    for j in 0..pat.len()
        invariant
            i + pat@.len() <= s.len(),
            forall|k: int| 0 <= k < j ==> s@[i + k] == pat@[k],
    {
        if s[i + j] != pat[j] {
            assert(s@.subrange(i as int, i + pat@.len())[j as int] != pat@[j as int]);
            return false;
        }
    }
    assert(s@.subrange(i as int, i + pat@.len()) =~= pat@);
    true
}

fn find_from(s: &[char], pat: &[char], from: usize) -> (at: Option<usize>)
    requires
        from <= s@.len(),
    ensures
        match at {
            Some(k) => index_from(s@, pat@, from as int) == Some(k as int) && k + pat@.len()
                <= s.len(),
            None => index_from(s@, pat@, from as int) is None,
        },
{
    if pat.len() > s.len() {
        return None;
    }
    let last = s.len() - pat.len();
    let mut i = from;
    while i <= last
        invariant
            last == s@.len() - pat@.len(),
            from <= i <= s@.len() + 1,
            index_from(s@, pat@, from as int) == index_from(s@, pat@, i as int),
        decreases s@.len() + 1 - i,
    {
        if stands_at(s, pat, i) {
            return Some(i);
        }
        if i == last {
            assert(index_from(s@, pat@, i + 1) is None);
            return None;
        }
        i = i + 1;
    }
    None
}

// ---- prefixes and suffixes ----

pub open spec fn starts_with(s: Seq<char>, prefix: Seq<char>) -> bool {
    occurs_at(s, prefix, 0)
}

/// What follows `prefix` in `s`, if `s` starts with it.
pub open spec fn after_prefix(s: Seq<char>, prefix: Seq<char>) -> Option<Seq<char>> {
    if starts_with(s, prefix) {
        Some(s.skip(prefix.len() as int))
    } else {
        None
    }
}

/// The content of an optional string.
pub open spec fn opt_text(s: Option<String>) -> Option<Seq<char>> {
    match s {
        Some(t) => Some(t@),
        None => None,
    }
}

pub fn strip_prefix(s: &str, prefix: &str) -> (rest: Option<String>)
    ensures
        opt_text(rest) == after_prefix(s@, prefix@),
{
    let chars = chars_of(s);
    let pat = chars_of(prefix);
    if stands_at(&chars, &pat, 0) {
        assert(chars@.subrange(pat@.len() as int, chars@.len() as int) =~= s@.skip(
            prefix@.len() as int,
        ));
        Some(string_of(slice_subrange(chars.as_slice(), pat.len(), chars.len())))
    } else {
        None
    }
}

// ---- splitting at a string ----

/// What stands before and after the first `sep` in `s`.
pub open spec fn cut(s: Seq<char>, sep: Seq<char>) -> Option<(Seq<char>, Seq<char>)> {
    match index_in(s, sep) {
        Some(i) => Some((s.take(i), s.skip(i + sep.len()))),
        None => None,
    }
}

pub fn split_once(s: &str, sep: &str) -> (halves: Option<(String, String)>)
    ensures
        match halves {
            Some((a, b)) => cut(s@, sep@) == Some((a@, b@)),
            None => cut(s@, sep@) is None,
        },
{
    let chars = chars_of(s);
    let pat = chars_of(sep);
    match find_from(&chars, &pat, 0) {
        Some(i) => {
            assert(chars@.subrange(0, i as int) =~= s@.take(i as int));
            assert(chars@.subrange(i + pat@.len(), chars@.len() as int) =~= s@.skip(
                i + sep@.len(),
            ));
            let a = string_of(slice_subrange(chars.as_slice(), 0, i));
            let b = string_of(slice_subrange(chars.as_slice(), i + pat.len(), chars.len()));
            Some((a, b))
        },
        None => None,
    }
}

/// The parts of `s` between the occurrences of `sep`, taken from the left without overlap.
pub open spec fn parts_of(s: Seq<char>, sep: Seq<char>) -> Seq<Seq<char>>
    decreases s.len(),
    when sep.len() > 0
    via parts_of_decreases
{
    match index_in(s, sep) {
        Some(i) => seq![s.take(i)] + parts_of(s.skip(i + sep.len()), sep),
        None => seq![s],
    }
}

#[via_fn]
proof fn parts_of_decreases(s: Seq<char>, sep: Seq<char>) {
    lemma_index_from(s, sep, 0);
}

pub fn split(s: &str, sep: &str) -> (parts: Vec<String>)
    requires
        sep@.len() > 0,
    ensures
        texts(parts@) == parts_of(s@, sep@),
{
    let chars = chars_of(s);
    let pat = chars_of(sep);
    let mut parts: Vec<String> = Vec::new();
    let mut from: usize = 0;
    assert(s@.skip(0) =~= s@);
    assert(texts(parts@) + parts_of(s@, sep@) =~= parts_of(s@, sep@));
    loop
        invariant_except_break
            texts(parts@) + parts_of(s@.skip(from as int), sep@) == parts_of(s@, sep@),
        invariant
            chars@ == s@,
            pat@ == sep@,
            sep@.len() > 0,
            from <= s@.len(),
        ensures
            texts(parts@) == parts_of(s@, sep@),
        decreases s@.len() - from,
    {
        let rest = slice_subrange(chars.as_slice(), from, chars.len());
        assert(rest@ =~= s@.skip(from as int));
        let ghost before = parts@;
        match find_from(rest, &pat, 0) {
            Some(i) => {
                assert(rest@.subrange(0, i as int) =~= rest@.take(i as int));
                let part = string_of(slice_subrange(rest, 0, i));
                proof {
                    lemma_texts_push(before, part);
                }
                parts.push(part);
                from = from + i + pat.len();
                assert(rest@.skip(i + sep@.len()) =~= s@.skip(from as int));
                assert(texts(parts@) + parts_of(s@.skip(from as int), sep@) =~= texts(before)
                    + parts_of(rest@, sep@));
            },
            None => {
                let part = string_of(rest);
                proof {
                    lemma_texts_push(before, part);
                }
                parts.push(part);
                assert(texts(parts@) =~= texts(before) + parts_of(rest@, sep@));
                break;
            },
        }
    }
    parts
}

} // verus!
