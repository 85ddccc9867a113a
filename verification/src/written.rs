//! What stands on a sheet: how it is laid out, and what a line of it says.

use vstd::prelude::*;

use crate::fact::{cleaned, full_line, group_name, FactText};
use crate::layout::{
    fact_block, group_before, group_of, groups_of, heading, in_group, sections, sheet_text,
    HELP_CHANGES, HELP_FORM, HELP_IGNORED,
};
use crate::order::text_before;
use crate::refusal::Reason;
use crate::search::{
    after_prefix, cut, lemma_index_from, lemma_index_is, lemma_index_none, occurs_at, parts_of,
};
use crate::sheet::{
    body_split, fact_lines, fields_of, head_split, is_fact_line, line_parsed, tags_in,
};
use crate::text::{all_trimmed, at_least, lines_of, on_one_line, trimmed};

verus! {

// ---- places in a text ----

/// Whether `part` stands in `s` from place `i` on.
pub open spec fn stands(s: Seq<char>, part: Seq<char>, i: int) -> bool {
    &&& 0 <= i
    &&& i + part.len() <= s.len()
    &&& forall|j: int| 0 <= j < part.len() ==> #[trigger] part[j] == s[i + j]
}

proof fn lemma_stands(s: Seq<char>, part: Seq<char>, i: int)
    ensures
        stands(s, part, i) <==> occurs_at(s, part, i),
{
    if 0 <= i && i + part.len() <= s.len() {
        let t = s.subrange(i, i + part.len());
        if stands(s, part, i) {
            assert forall|j: int| 0 <= j < part.len() implies t[j] == part[j] by {
                assert(part[j] == s[i + j]);
            }
            assert(t =~= part);
        }
        if t == part {
            assert forall|j: int| 0 <= j < part.len() implies #[trigger] part[j] == s[i + j] by {
                assert(t[j] == s[i + j]);
            }
        }
    }
}

/// What follows a prefix is found if and only if the text starts with it.
pub proof fn law_prefix(s: Seq<char>, prefix: Seq<char>)
    ensures
        match after_prefix(s, prefix) {
            Some(rest) => s == prefix + rest,
            None => !stands(s, prefix, 0),
        },
{
    lemma_stands(s, prefix, 0);
    if let Some(rest) = after_prefix(s, prefix) {
        assert(s =~= prefix + rest);
    }
}

/// A text is cut at the first place at which the separator stands, and only if there is one.
pub proof fn law_cut(s: Seq<char>, sep: Seq<char>)
    ensures
        match cut(s, sep) {
            Some((a, b)) => s == a + sep + b && forall|j: int|
                0 <= j < a.len() ==> !#[trigger] stands(s, sep, j),
            None => forall|j: int| !#[trigger] stands(s, sep, j),
        },
{
    lemma_index_from(s, sep, 0);
    assert forall|j: int| #[trigger] stands(s, sep, j) <==> occurs_at(s, sep, j) by {
        lemma_stands(s, sep, j);
    }
    if let Some((a, b)) = cut(s, sep) {
        let k = a.len() as int;
        assert(occurs_at(s, sep, k));
        assert(s.subrange(k, k + sep.len()) == sep);
        assert(s =~= a + sep + b);
    }
}

/// The parts of a text: what stands before the first separator, and then the parts of what stands
/// behind it; a text without separator is its only part.
pub proof fn law_parts(s: Seq<char>, sep: Seq<char>, k: int)
    requires
        sep.len() > 0,
    ensures
        (forall|j: int| !#[trigger] stands(s, sep, j)) ==> parts_of(s, sep) == seq![s],
        stands(s, sep, k) && (forall|j: int| 0 <= j < k ==> !#[trigger] stands(s, sep, j))
            ==> parts_of(s, sep) == seq![s.take(k)] + parts_of(s.skip(k + sep.len()), sep),
{
    assert forall|j: int| #[trigger] stands(s, sep, j) <==> occurs_at(s, sep, j) by {
        lemma_stands(s, sep, j);
    }
    if forall|j: int| !#[trigger] stands(s, sep, j) {
        assert forall|j: int| 0 <= j implies !occurs_at(s, sep, j) by {
            assert(!stands(s, sep, j));
        }
        lemma_index_none(s, sep);
    }
    if stands(s, sep, k) && (forall|j: int| 0 <= j < k ==> !#[trigger] stands(s, sep, j)) {
        assert forall|j: int| 0 <= j < k implies !occurs_at(s, sep, j) by {
            assert(!stands(s, sep, j));
        }
        lemma_index_is(s, sep, k);
    }
}

// ---- the lines of a sheet ----

/// The lines of a sheet that speak of facts: all but empty ones and those that start with `#`, white
/// space around them left out of account, in their order.
pub proof fn law_comments_skipped(sheet: Seq<char>)
    ensures
        fact_lines(sheet) == lines_of(sheet).map_values(|l: Seq<char>| trimmed(l)).filter(
            |l: Seq<char>| l.len() > 0 && l[0] != '#',
        ),
{
    let p = |l: Seq<char>| l.len() > 0 && l[0] != '#';
    assert(p =~= is_fact_line());
    assert(all_trimmed(lines_of(sheet)) =~= lines_of(sheet).map_values(
        |l: Seq<char>| trimmed(l),
    ));
}

/// The fields of a line are what stands between double spaces, trimmed, without the empty ones.
pub proof fn law_fields(line: Seq<char>)
    ensures
        fields_of(line) == parts_of(line, "  "@).map_values(|p: Seq<char>| trimmed(p)).filter(
            |p: Seq<char>| p.len() > 0,
        ),
{
    let p = |p: Seq<char>| p.len() > 0;
    assert(p =~= at_least(1));
    assert(all_trimmed(parts_of(line, "  "@)) =~= parts_of(line, "  "@).map_values(
        |p: Seq<char>| trimmed(p),
    ));
}

/// What a field behind the first one says: the tags in it if it starts with `#`, and nothing if it
/// is in round brackets; any other field cannot be read.
pub proof fn law_field_says(field: Seq<char>)
    ensures
        field.len() > 0 && field[0] == '#' ==> tags_in(seq![field]) == Some(
            parts_of(field.drop_first(), " #"@),
        ),
        field.len() > 0 && field[0] == '(' && field.last() == ')' ==> tags_in(seq![field]) == Some(
            Seq::<Seq<char>>::empty(),
        ),
        field.len() > 0 && field[0] != '#' && !(field[0] == '(' && field.last() == ')')
            ==> tags_in(seq![field]) is None,
        tags_in(Seq::empty()) == Some(Seq::<Seq<char>>::empty()),
{
    reveal_strlit("#");
    let one = seq![field];
    assert(one.drop_last() =~= Seq::<Seq<char>>::empty());
    law_prefix(field, "#"@);
    assert(tags_in(one.drop_last()) == Some(Seq::<Seq<char>>::empty()));
    match after_prefix(field, "#"@) {
        Some(rest) => {
            assert(field[0] == '#');
            assert(rest =~= field.drop_first());
            assert(Seq::<Seq<char>>::empty() + parts_of(rest, " #"@) =~= parts_of(rest, " #"@));
        },
        None => {
            if field.len() > 0 && field[0] == '#' {
                assert(stands(field, "#"@, 0));
            }
        },
    }
}

/// The fields of a line are read one by one: what the whole says is what its parts say, and it can
/// be read if and only if each part can.
pub proof fn law_fields_add(a: Seq<Seq<char>>, b: Seq<Seq<char>>)
    ensures
        tags_in(a + b) == match (tags_in(a), tags_in(b)) {
            (Some(x), Some(y)) => Some(x + y),
            _ => None,
        },
    decreases b.len(),
{
    if b.len() == 0 {
        assert(a + b =~= a);
        if let Some(x) = tags_in(a) {
            assert(x + Seq::<Seq<char>>::empty() =~= x);
        }
    } else {
        let c = b.drop_last();
        law_fields_add(a, c);
        assert((a + b).drop_last() =~= a + c);
        assert((a + b).last() == b.last());
        match (tags_in(a), tags_in(c)) {
            (Some(x), Some(y)) => {
                if let Some(rest) = after_prefix(b.last(), "#"@) {
                    let z = parts_of(rest, " #"@);
                    assert((x + y) + z =~= x + (y + z));
                }
            },
            _ => {},
        }
    }
}

/// The id of a line is what stands between an opening square bracket at its start and the first
/// closing one; without both the line is new, and all of it is content.
pub proof fn law_id_of_line(head: Seq<char>)
    ensures
        match head_split(head) {
            (Some(id), body) => exists|rest: Seq<char>|
                head == "["@ + id + "]"@ + rest && body == trimmed(rest),
            (None, body) => body == head,
        },
        forall|i: int|
            head_split(head).0 is Some && 0 <= i < head_split(head).0->Some_0.len()
                ==> #[trigger] head_split(head).0->Some_0[i] != ']',
        head_split(head).0 is Some <==> head.len() > 0 && head[0] == '[' && exists|k: int|
            0 < k < head.len() && #[trigger] head[k] == ']',
{
    reveal_strlit("[");
    reveal_strlit("]");
    law_prefix(head, "["@);
    match after_prefix(head, "["@) {
        Some(rest) => {
            assert(head[0] == '[');
            assert(rest =~= head.drop_first());
            law_cut(rest, "]"@);
            match cut(rest, "]"@) {
                Some((id, behind)) => {
                    assert(head =~= "["@ + id + "]"@ + behind);
                    assert(head[id.len() as int + 1] == ']');
                    assert forall|i: int| 0 <= i < id.len() implies #[trigger] id[i] != ']' by {
                        if id[i] == ']' {
                            assert(rest[i] == ']');
                            assert(stands(rest, "]"@, i));
                        }
                    }
                },
                None => {
                    assert forall|k: int| 0 < k < head.len() implies #[trigger] head[k] != ']' by {
                        if head[k] == ']' {
                            assert(rest[k - 1] == ']');
                            assert(stands(rest, "]"@, k - 1));
                        }
                    }
                },
            }
        },
        None => {
            if head.len() > 0 && head[0] == '[' {
                assert(stands(head, "["@, 0));
            }
        },
    }
}

/// The check of a line is what stands behind the mark for it: at the start, where there is no text,
/// or else behind the first mark with a bar; without a mark all of it is text.
pub proof fn law_check_of_line(body: Seq<char>)
    ensures
        ({
            let (text, check) = body_split(body);
            if stands(body, "check: "@, 0) {
                body == "check: "@ + check && text.len() == 0
            } else if exists|k: int| #[trigger] stands(body, " | check: "@, k) {
                body == text + " | check: "@ + check && forall|j: int|
                    0 <= j < text.len() ==> !#[trigger] stands(body, " | check: "@, j)
            } else {
                text == body && check.len() == 0
            }
        }),
{
    law_prefix(body, "check: "@);
    law_cut(body, " | check: "@);
    if let Some(rest) = after_prefix(body, "check: "@) {
        assert(stands(body, "check: "@, 0));
    } else if let Some((a, b)) = cut(body, " | check: "@) {
        assert(stands(body, " | check: "@, a.len() as int));
    }
}

/// What a line says: it is refused if it has no fields or one behind the first that cannot be read,
/// and else gives the id, the text and the check of its first field and the tags of the others, in
/// the form in which they are kept.
pub proof fn law_line_says(line: Seq<char>)
    ensures
        ({
            let fields = fields_of(line);
            match line_parsed(line) {
                Err(e) => if fields.len() == 0 {
                    e == (Reason::EmptyLine { line })
                } else {
                    e == (Reason::Unreadable { line }) && exists|i: int|
                        1 <= i < fields.len() && (#[trigger] fields[i])[0] != '#' && !(fields[i][0]
                            == '(' && fields[i].last() == ')')
                },
                Ok(said) => {
                    let (id, body) = head_split(fields[0]);
                    let (text, check) = body_split(body);
                    &&& fields.len() > 0
                    &&& forall|i: int|
                        1 <= i < fields.len() ==> (#[trigger] fields[i])[0] == '#' || (fields[i][0]
                            == '(' && fields[i].last() == ')')
                    &&& said.id == id
                    &&& said.text == on_one_line(text)
                    &&& said.check == on_one_line(check)
                    &&& tags_in(fields.drop_first()) is Some
                    &&& said.tags == cleaned(tags_in(fields.drop_first())->Some_0)
                },
            }
        }),
{
    let fields = fields_of(line);
    if fields.len() > 0 {
        let rest = fields.drop_first();
        let all = all_trimmed(parts_of(line, "  "@));
        assert forall|i: int| 0 <= i < fields.len() implies (#[trigger] fields[i]).len() > 0 by {
            all.lemma_filter_pred(at_least(1), i);
        }
        assert forall|i: int| 0 <= i < rest.len() implies (#[trigger] rest[i]).len() > 0 by {
            assert(rest[i] == fields[i + 1]);
        }
        lemma_all_read(rest);
        assert forall|i: int| 1 <= i < fields.len() implies #[trigger] fields[i] == rest[i - 1] by {}
        if tags_in(rest) is None {
            let i = choose|i: int|
                0 <= i < rest.len() && (#[trigger] rest[i])[0] != '#' && !(rest[i][0] == '('
                    && rest[i].last() == ')');
            assert(rest[i] == fields[i + 1]);
        }
    }
}

proof fn lemma_all_read(fields: Seq<Seq<char>>)
    requires
        forall|i: int| 0 <= i < fields.len() ==> (#[trigger] fields[i]).len() > 0,
    ensures
        tags_in(fields) is None ==> exists|i: int|
            0 <= i < fields.len() && (#[trigger] fields[i])[0] != '#' && !(fields[i][0] == '('
                && fields[i].last() == ')'),
        tags_in(fields) is Some ==> forall|i: int|
            0 <= i < fields.len() ==> (#[trigger] fields[i])[0] == '#' || (fields[i][0] == '('
                && fields[i].last() == ')'),
    decreases fields.len(),
{
    if fields.len() > 0 {
        let shorter = fields.drop_last();
        let last = fields.last();
        assert(forall|i: int| 0 <= i < shorter.len() ==> shorter[i] == #[trigger] fields[i]);
        assert(fields[fields.len() - 1] == last);
        lemma_all_read(shorter);
        assert(shorter + seq![last] =~= fields);
        law_fields_add(shorter, seq![last]);
        law_field_says(last);
    }
}

// ---- the layout ----

/// The facts of a sheet stand under headings: the tag of their group, behind a mark for facts with
/// the reserved tag, or that mark alone.
pub proof fn law_heading(f: FactText)
    ensures
        !f.tags.contains("ref"@) ==> heading(group_of(f)) == "# "@ + group_name(f),
        f.tags.contains("ref"@) && group_name(f).len() > 0 ==> heading(group_of(f)) == "# ref: "@
            + group_name(f),
        f.tags.contains("ref"@) && group_name(f).len() == 0 ==> heading(group_of(f)) == "# ref"@,
{
}

/// Facts with the reserved tag come behind the others, and else their tags decide; facts that agree
/// in both stand under one heading.
pub proof fn law_group_order(f: FactText, g: FactText)
    ensures
        !f.tags.contains("ref"@) && g.tags.contains("ref"@) ==> group_before(
            group_of(f),
            group_of(g),
        ) && !group_before(group_of(g), group_of(f)),
        f.tags.contains("ref"@) == g.tags.contains("ref"@) ==> (group_before(
            group_of(f),
            group_of(g),
        ) <==> text_before(group_name(f), group_name(g))),
        group_of(f) == group_of(g) <==> f.tags.contains("ref"@) == g.tags.contains("ref"@)
            && group_name(f) == group_name(g),
{
}

proof fn lemma_block_add(a: Seq<FactText>, b: Seq<FactText>)
    ensures
        fact_block(a + b) == fact_block(a) + fact_block(b),
    decreases b.len(),
{
    if b.len() == 0 {
        assert(a + b =~= a);
        assert(fact_block(a) + fact_block(b) =~= fact_block(a));
    } else {
        lemma_block_add(a, b.drop_last());
        assert((a + b).drop_last() =~= a + b.drop_last());
        assert(fact_block(a + b) =~= fact_block(a) + fact_block(b));
    }
}

/// The sheet: three lines of help, and then for every group, in order, an empty line, its heading
/// and the long line of each of its facts, in the order of the store.
pub proof fn law_sheet_layout(facts: Seq<FactText>, k: int)
    requires
        0 <= k < groups_of(facts).len(),
    ensures
        ({
            let groups = groups_of(facts);
            let g = groups[k];
            &&& sheet_text(facts) == HELP_FORM@ + "\n"@ + HELP_CHANGES@ + "\n"@ + HELP_IGNORED@
                + "\n"@ + sections(facts, groups)
            &&& sections(facts, Seq::empty()) == Seq::<char>::empty()
            &&& sections(facts, groups.take(k + 1)) == sections(facts, groups.take(k)) + "\n"@
                + heading(g) + "\n"@ + fact_block(facts.filter(|f: FactText| group_of(f) == g))
        }),
{
    let groups = groups_of(facts);
    let g = groups[k];
    let p = |f: FactText| group_of(f) == g;
    assert(p =~= in_group(g));
    assert(groups.take(k + 1).drop_last() =~= groups.take(k));
    assert(sections(facts, groups.take(k + 1)) =~= sections(facts, groups.take(k)) + "\n"@ + heading(
        g,
    ) + "\n"@ + fact_block(facts.filter(p)));
}

/// A block of facts is their long lines, each with its end.
pub proof fn law_block(a: Seq<FactText>, f: FactText, b: Seq<FactText>)
    ensures
        fact_block(a + b) == fact_block(a) + fact_block(b),
        fact_block(seq![f]) == full_line(f) + "\n"@,
        fact_block(Seq::empty()) == Seq::<char>::empty(),
{
    lemma_block_add(a, b);
    let one = seq![f];
    assert(one.drop_last() =~= Seq::<FactText>::empty());
    assert(fact_block(one.drop_last()) =~= Seq::<char>::empty());
    assert(fact_block(one) =~= full_line(f) + "\n"@);
}

} // verus!
