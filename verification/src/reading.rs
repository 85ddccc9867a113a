//! What the sheet shows of a fact is what is read from it.

use vstd::prelude::*;

use crate::fact::{
    bare_line, body_of, full_line, is_blank, is_clean, is_sound, is_tidy, law_clean_tags, FactText,
};
use crate::form::{
    is_one_line, law_one_line_fixed, law_trimmed, lemma_joined_add, lemma_trimmed_is,
};
use crate::refusal::Reason;
use crate::search::{
    after_prefix, lemma_index_is, lemma_index_none, occurs_at, parts_of, starts_with,
};
use crate::sheet::{
    body_split, fields_of, head_split, is_bracketed, line_parsed, tags_in, SheetText,
};
use crate::text::{all_trimmed, at_least, is_white, joined, trimmed};

verus! {

/// Whether `pat` stands nowhere in `s`.
pub open spec fn lacks(s: Seq<char>, pat: Seq<char>) -> bool {
    forall|j: int| !occurs_at(s, pat, j)
}

/// Whether the text of a fact can be told from its check where both stand in one line: the line
/// does not look like a check alone, and the first mark of a check is the one behind the text.
pub open spec fn is_plain(f: FactText) -> bool {
    f.text.len() > 0 ==> {
        &&& !starts_with(body_of(f), "check: "@)
        &&& forall|j: int| 0 <= j < f.text.len() ==> !occurs_at(body_of(f), " | check: "@, j)
    }
}

/// Whether a fact can be shown in a sheet: no field holds what ends it.
pub open spec fn fits_sheet(f: FactText) -> bool {
    &&& is_plain(f)
    &&& lacks(f.id, "]"@)
    &&& lacks(f.id, "  "@)
    &&& forall|i: int|
        0 <= i < f.tags.len() ==> lacks(#[trigger] f.tags[i], "  "@) && lacks(f.tags[i], " #"@)
    &&& lacks(f.ts, "  "@)
}

/// What a line of the sheet says of a fact.
pub open spec fn line_of(f: FactText) -> SheetText {
    SheetText { id: Some(f.id), text: f.text, check: f.check, tags: f.tags }
}

// ---- parts ----

proof fn lemma_parts_add(a: Seq<char>, sep: Seq<char>, b: Seq<char>)
    requires
        sep.len() > 0,
        forall|j: int| 0 <= j < a.len() ==> !occurs_at(a + sep + b, sep, j),
    ensures
        parts_of(a + sep + b, sep) == seq![a] + parts_of(b, sep),
{
    let s = a + sep + b;
    assert(s.subrange(a.len() as int, (a.len() + sep.len()) as int) =~= sep);
    lemma_index_is(s, sep, a.len() as int);
    assert(s.take(a.len() as int) =~= a);
    assert(s.skip((a.len() + sep.len()) as int) =~= b);
}

proof fn lemma_parts_whole(s: Seq<char>, sep: Seq<char>)
    requires
        sep.len() > 0,
        lacks(s, sep),
    ensures
        parts_of(s, sep) == seq![s],
{
    lemma_index_none(s, sep);
}

// ---- two spaces ----

/// Whether no two neighbours are both spaces.
pub open spec fn spaced(s: Seq<char>) -> bool {
    forall|i: int| 0 < i < s.len() && s[i - 1] == ' ' ==> #[trigger] s[i] != ' '
}

proof fn lemma_spaced(s: Seq<char>)
    ensures
        lacks(s, "  "@) <==> spaced(s),
{
    reveal_strlit("  ");
    let two = "  "@;
    if lacks(s, two) {
        assert forall|i: int| 0 < i < s.len() && s[i - 1] == ' ' implies #[trigger] s[i] != ' ' by {
            if s[i] == ' ' {
                assert(s.subrange(i - 1, i + 1) =~= two);
                assert(occurs_at(s, two, i - 1));
            }
        }
    }
    if spaced(s) {
        assert forall|j: int| !occurs_at(s, two, j) by {
            if occurs_at(s, two, j) {
                assert(s.subrange(j, j + 2)[0] == s[j]);
                assert(s.subrange(j, j + 2)[1] == s[j + 1]);
            }
        }
    }
}

/// Two texts without two spaces in a row, the first of which does not end with a space, have
/// none together.
proof fn lemma_spaced_add(a: Seq<char>, b: Seq<char>)
    requires
        spaced(a),
        spaced(b),
        a.len() > 0 ==> a.last() != ' ' || (b.len() > 0 ==> b[0] != ' '),
    ensures
        spaced(a + b),
{
    let s = a + b;
    assert forall|i: int| 0 < i < s.len() && s[i - 1] == ' ' implies #[trigger] s[i] != ' ' by {
        if i < a.len() {
            assert(s[i] == a[i] && s[i - 1] == a[i - 1]);
        } else if i == a.len() {
            assert(s[i - 1] == a.last() && s[i] == b[0]);
        } else {
            assert(s[i] == b[i - a.len()] && s[i - 1] == b[i - a.len() - 1]);
        }
    }
}

/// Two spaces part a field from what follows it.
proof fn lemma_field_parted(a: Seq<char>, b: Seq<char>)
    requires
        spaced(a),
        a.len() > 0,
        a.last() != ' ',
    ensures
        parts_of(a + "  "@ + b, "  "@) == seq![a] + parts_of(b, "  "@),
{
    reveal_strlit("  ");
    let two = "  "@;
    let s = a + two + b;
    assert forall|j: int| 0 <= j < a.len() implies !occurs_at(s, two, j) by {
        if occurs_at(s, two, j) {
            assert(s.subrange(j, j + 2)[0] == s[j]);
            assert(s.subrange(j, j + 2)[1] == s[j + 1]);
            assert(s[j] == a[j]);
            if j + 1 < a.len() {
                assert(s[j + 1] == a[j + 1]);
            }
        }
    }
    lemma_parts_add(a, two, b);
}

// ---- the first field ----

proof fn lemma_one_line_add(a: Seq<char>, b: Seq<char>)
    requires
        is_one_line(a),
        is_one_line(b),
        a.len() > 0,
        b.len() > 0,
    ensures
        is_one_line(a.push(' ') + b),
{
    let s = a.push(' ') + b;
    assert forall|i: int| 0 <= i < s.len() && is_white(#[trigger] s[i]) implies s[i] == ' ' by {
        if i < a.len() {
            assert(s[i] == a[i]);
        } else if i > a.len() {
            assert(s[i] == b[i - a.len() - 1]);
        }
    }
    assert forall|i: int| 0 < i < s.len() && s[i - 1] == ' ' implies #[trigger] s[i] != ' ' by {
        if i < a.len() {
            assert(s[i] == a[i] && s[i - 1] == a[i - 1]);
        } else if i == a.len() {
            assert(s[i - 1] == a.last());
        } else if i == a.len() + 1 {
            assert(s[i] == b[0]);
        } else {
            assert(s[i] == b[i - a.len() - 1] && s[i - 1] == b[i - a.len() - 2]);
        }
    }
    assert(s[0] == a[0]);
    assert(s.last() == b.last());
}

proof fn lemma_body_one_line(f: FactText)
    requires
        is_sound(f),
    ensures
        is_one_line(body_of(f)),
        body_of(f).len() > 0,
{
    reveal_strlit("check: ");
    reveal_strlit("check:");
    reveal_strlit("| check:");
    reveal_strlit(" | check: ");
    if f.check.len() > 0 {
        if f.text.len() == 0 {
            let mark = "check:"@;
            assert(is_one_line(mark));
            lemma_one_line_add(mark, f.check);
            assert(body_of(f) =~= mark.push(' ') + f.check);
        } else {
            let mark = "| check:"@;
            assert(is_one_line(mark));
            lemma_one_line_add(f.text, mark);
            let a = f.text.push(' ') + mark;
            lemma_one_line_add(a, f.check);
            assert(body_of(f) =~= a.push(' ') + f.check);
        }
    }
}

proof fn lemma_body_read(f: FactText)
    requires
        is_plain(f),
    ensures
        body_split(body_of(f)) == (f.text, f.check),
{
    reveal_strlit("check: ");
    reveal_strlit(" | check: ");
    let body = body_of(f);
    let mark = " | check: "@;
    if f.text.len() == 0 {
        assert(f.text =~= Seq::<char>::empty());
        if f.check.len() > 0 {
            assert(body.subrange(0, 7) =~= "check: "@);
            assert(body.skip(7) =~= f.check);
        } else {
            assert(f.check =~= Seq::<char>::empty());
            assert(!starts_with(body, "check: "@));
            lemma_index_none(body, mark);
        }
    } else if f.check.len() == 0 {
        assert(f.check =~= Seq::<char>::empty());
        lemma_index_none(body, mark);
    } else {
        let n = f.text.len() as int;
        assert(body.subrange(n, n + 10) =~= mark);
        lemma_index_is(body, mark, n);
        assert(body.take(n) =~= f.text);
        assert(body.skip(n + 10) =~= f.check);
    }
}

/// The first field of the line of a fact: id and body, without the space behind the id where
/// there is no body.
spec fn head_of(f: FactText) -> Seq<char> {
    if is_blank(f) {
        "["@ + f.id + "]"@
    } else {
        bare_line(f)
    }
}

proof fn lemma_head_read(f: FactText)
    requires
        is_tidy(f),
        lacks(f.id, "]"@),
    ensures
        head_split(head_of(f)) == (Some(f.id), body_of(f)),
{
    reveal_strlit("[");
    reveal_strlit("]");
    reveal_strlit("] ");
    if !is_blank(f) {
        lemma_body_one_line(f);
    }
    let body = body_of(f);
    let head = head_of(f);
    let rest = if is_blank(f) {
        f.id + "]"@
    } else {
        f.id + "] "@ + body
    };
    let close = "]"@;
    assert(head.subrange(0, 1) =~= "["@);
    assert(head.skip(1) =~= rest);
    let n = f.id.len() as int;
    assert(rest.subrange(n, n + 1) =~= close);
    assert forall|j: int| 0 <= j < n implies !occurs_at(rest, close, j) by {
        if occurs_at(rest, close, j) {
            assert(rest.subrange(j, j + 1)[0] == rest[j]);
            assert(f.id.subrange(j, j + 1) =~= close);
            assert(occurs_at(f.id, close, j));
        }
    }
    lemma_index_is(rest, close, n);
    assert(rest.take(n) =~= f.id);
    let tail = rest.skip(n + 1);
    lemma_trimmed_is(body);
    if is_blank(f) {
        assert(tail =~= body);
    } else {
        lemma_leading_space(body);
        assert(tail =~= seq![' '] + body);
    }
}

proof fn lemma_head_spaced(f: FactText)
    requires
        is_tidy(f),
        lacks(f.id, "  "@),
    ensures
        spaced(head_of(f)),
        head_of(f).len() > 0,
        !is_white(head_of(f)[0]),
        !is_white(head_of(f).last()),
{
    reveal_strlit("[");
    reveal_strlit("]");
    reveal_strlit("] ");
    lemma_spaced(f.id);
    assert(spaced("["@));
    assert(spaced("]"@));
    assert(spaced("] "@));
    assert(is_white(' '));
    lemma_spaced_add("["@, f.id);
    let a = "["@ + f.id;
    if is_blank(f) {
        lemma_spaced_add(a, "]"@);
    } else {
        lemma_body_one_line(f);
        lemma_spaced_add(a, "] "@);
        lemma_spaced_add(a + "] "@, body_of(f));
    }
}

/// A space in front of a field is trimmed away.
proof fn lemma_leading_space(s: Seq<char>)
    ensures
        trimmed(seq![' '] + s) == trimmed(s),
{
    assert(is_white(' '));
    assert((seq![' '] + s).drop_first() =~= s);
}

// ---- the field of the tags ----

proof fn lemma_tag_ends(tags: Seq<Seq<char>>, i: int)
    requires
        is_clean(tags),
        0 <= i < tags.len(),
    ensures
        tags[i].len() > 0,
        !is_white(tags[i][0]),
        !is_white(tags[i].last()),
{
    law_trimmed(tags[i]);
    assert(trimmed(tags[i]) == tags[i]);
}

proof fn lemma_tags_spaced(tags: Seq<Seq<char>>)
    requires
        tags.len() > 0,
        is_clean(tags),
        forall|i: int| 0 <= i < tags.len() ==> spaced(#[trigger] tags[i]),
    ensures
        spaced(joined(tags, " #"@)),
        joined(tags, " #"@).len() > 0,
        !is_white(joined(tags, " #"@).last()),
    decreases tags.len(),
{
    reveal_strlit(" #");
    assert(is_white(' '));
    let last = tags[tags.len() - 1];
    lemma_tag_ends(tags, tags.len() - 1);
    if tags.len() > 1 {
        let shorter = tags.drop_last();
        assert(forall|i: int| 0 <= i < shorter.len() ==> #[trigger] shorter[i] == tags[i]);
        lemma_tags_spaced(shorter);
        let a = joined(shorter, " #"@);
        assert(spaced(" #"@));
        lemma_spaced_add(a, " #"@);
        lemma_spaced_add(a + " #"@, last);
        assert(joined(tags, " #"@) == a + " #"@ + last);
    }
}

proof fn lemma_tags_read(tags: Seq<Seq<char>>)
    requires
        tags.len() > 0,
        forall|i: int| 0 <= i < tags.len() ==> lacks(#[trigger] tags[i], " #"@),
    ensures
        parts_of(joined(tags, " #"@), " #"@) == tags,
    decreases tags.len(),
{
    reveal_strlit(" #");
    let sep = " #"@;
    assert(lacks(tags[0], sep));
    if tags.len() == 1 {
        lemma_parts_whole(tags[0], sep);
        assert(tags =~= seq![tags[0]]);
    } else {
        let first = tags[0];
        let rest = tags.drop_first();
        assert forall|i: int| 0 <= i < rest.len() implies lacks(#[trigger] rest[i], sep) by {
            assert(rest[i] == tags[i + 1]);
        }
        lemma_tags_read(rest);
        assert(tags =~= seq![first] + rest);
        lemma_joined_add(seq![first], rest, sep);
        let b = joined(rest, sep);
        let s = first + sep + b;
        assert forall|j: int| 0 <= j < first.len() implies !occurs_at(s, sep, j) by {
            if occurs_at(s, sep, j) {
                assert(s.subrange(j, j + 2)[0] == s[j]);
                assert(s.subrange(j, j + 2)[1] == s[j + 1]);
                if j + 1 < first.len() {
                    assert(first.subrange(j, j + 2) =~= sep);
                    assert(occurs_at(first, sep, j));
                }
            }
        }
        lemma_parts_add(first, sep, b);
    }
}

// ---- the line ----

/// Fields stay as they are, but for a space in front of the second one.
proof fn lemma_kept_fields(list: Seq<Seq<char>>, raw: Seq<Seq<char>>)
    requires
        raw.len() == list.len(),
        forall|i: int|
            0 <= i < list.len() ==> (#[trigger] list[i]).len() > 0 && !is_white(list[i][0])
                && !is_white(list[i].last()) && (raw[i] == list[i] || raw[i] == seq![' '] + list[i]),
    ensures
        all_trimmed(raw).filter(at_least(1)) == list,
    decreases list.len(),
{
    reveal(Seq::filter);
    if list.len() > 0 {
        let shorter = list.drop_last();
        let fewer = raw.drop_last();
        assert forall|i: int| 0 <= i < shorter.len() implies (#[trigger] shorter[i]).len() > 0
            && !is_white(shorter[i][0]) && !is_white(shorter[i].last()) && (fewer[i] == shorter[i]
            || fewer[i] == seq![' '] + shorter[i]) by {
            assert(shorter[i] == list[i] && fewer[i] == raw[i]);
        }
        lemma_kept_fields(shorter, fewer);
        let last = list[list.len() - 1];
        lemma_trimmed_is(last);
        lemma_leading_space(last);
        assert(all_trimmed(raw).drop_last() =~= all_trimmed(fewer));
        assert(all_trimmed(raw).last() == last);
        assert(all_trimmed(raw).filter(at_least(1)) =~= list);
    } else {
        assert(all_trimmed(raw).filter(at_least(1)) =~= list);
    }
}

/// A field without two spaces in a row has none with a space in front of it, unless it starts with
/// one.
proof fn lemma_gap_spaced(gap: Seq<char>, field: Seq<char>)
    requires
        gap.len() == 0 || gap == seq![' '],
        spaced(field),
        field.len() > 0,
        field[0] != ' ',
    ensures
        spaced(gap + field),
        (gap + field).len() > 0,
        (gap + field).last() == field.last(),
        gap + field == field || gap + field == seq![' '] + field,
{
    lemma_spaced_add(gap, field);
    if gap.len() == 0 {
        assert(gap + field =~= field);
    }
}

/// The fields of the line of a fact: the first one, the tags if there are any, and the date.
proof fn lemma_fields(f: FactText)
    requires
        is_tidy(f),
        fits_sheet(f),
    ensures
        fields_of(full_line(f)) == if f.tags.len() == 0 {
            seq![head_of(f), "("@ + f.ts + ")"@]
        } else {
            seq![head_of(f), "#"@ + joined(f.tags, " #"@), "("@ + f.ts + ")"@]
        },
{
    reveal_strlit("[");
    reveal_strlit("]");
    reveal_strlit("] ");
    reveal_strlit("(");
    reveal_strlit(")");
    reveal_strlit("#");
    reveal_strlit("  ");
    reveal_strlit("  #");
    reveal_strlit("  (");
    assert(is_white(' '));
    let head = head_of(f);
    let date = "("@ + f.ts + ")"@;
    let two = "  "@;
    let gap = if is_blank(f) {
        seq![' ']
    } else {
        Seq::<char>::empty()
    };
    lemma_head_spaced(f);
    lemma_spaced(f.ts);
    assert(spaced("("@));
    assert(spaced(")"@));
    lemma_spaced_add("("@, f.ts);
    lemma_spaced_add("("@ + f.ts, ")"@);
    assert(bare_line(f) + two =~= head + two + gap) by {
        if is_blank(f) {
            assert(body_of(f) =~= Seq::<char>::empty());
        }
    }
    if f.tags.len() == 0 {
        let rest = gap + date;
        lemma_gap_spaced(gap, date);
        lemma_spaced(rest);
        lemma_parts_whole(rest, two);
        assert(full_line(f) =~= (bare_line(f) + two) + date);
        assert(full_line(f) =~= head + two + rest);
        lemma_field_parted(head, rest);
        assert(parts_of(full_line(f), two) =~= seq![head, rest]);
        lemma_kept_fields(seq![head, date], seq![head, rest]);
    } else {
        lemma_spaced(date);
        lemma_parts_whole(date, two);
        let tags = joined(f.tags, " #"@);
        let field = "#"@ + tags;
        assert forall|i: int| 0 <= i < f.tags.len() implies spaced(#[trigger] f.tags[i]) by {
            lemma_spaced(f.tags[i]);
        }
        lemma_tags_spaced(f.tags);
        assert(spaced("#"@));
        lemma_spaced_add("#"@, tags);
        let raw = gap + field;
        lemma_gap_spaced(gap, field);
        let rest = raw + two + date;
        assert(full_line(f) =~= (bare_line(f) + two) + field + two + date);
        assert(full_line(f) =~= head + two + rest);
        lemma_field_parted(head, rest);
        lemma_field_parted(raw, date);
        assert(parts_of(full_line(f), two) =~= seq![head, raw, date]);
        lemma_kept_fields(seq![head, field, date], seq![head, raw, date]);
    }
}

proof fn lemma_tags_field_read(f: FactText)
    requires
        is_tidy(f),
        fits_sheet(f),
    ensures
        tags_in(fields_of(full_line(f)).drop_first()) == Some(f.tags),
{
    reveal_strlit("(");
    reveal_strlit(")");
    reveal_strlit("#");
    lemma_fields(f);
    let fields = fields_of(full_line(f)).drop_first();
    let date = "("@ + f.ts + ")"@;
    assert(fields.last() == date);
    assert(is_bracketed(date));
    assert(after_prefix(date, "#"@) is None) by {
        if starts_with(date, "#"@) {
            assert(date.subrange(0, 1)[0] == date[0]);
        }
    }
    let none = Seq::<Seq<char>>::empty();
    assert(tags_in(none) == Some(none));
    if f.tags.len() == 0 {
        assert(fields.drop_last() =~= none);
        assert(f.tags =~= none);
    } else {
        let tags = joined(f.tags, " #"@);
        let field = "#"@ + tags;
        let first = fields.drop_last();
        assert(first =~= seq![field]);
        assert(first.drop_last() =~= none);
        assert(first.last() == field);
        assert(field.subrange(0, 1) =~= "#"@);
        assert(field.skip(1) =~= tags);
        lemma_tags_read(f.tags);
        assert(none + f.tags =~= f.tags);
        assert(tags_in(first) == Some(f.tags));
    }
}

/// The line that shows a fact, read as a line of the sheet, gives back the id, the text, the check
/// and the tags of the fact.
pub proof fn law_line_reads_back(f: FactText)
    requires
        is_tidy(f),
        fits_sheet(f),
    ensures
        line_parsed(full_line(f)) == Ok::<SheetText, Reason>(line_of(f)),
{
    lemma_fields(f);
    lemma_tags_field_read(f);
    lemma_head_read(f);
    lemma_body_read(f);
    law_one_line_fixed(f.text);
    law_one_line_fixed(f.check);
    law_clean_tags(f.tags);
}

} // verus!
