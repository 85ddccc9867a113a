//! What is made of what the program is given: texts, numbers, dates, settings and files.

use vstd::prelude::*;

use crate::asking::{is_all_white, lemma_all_white};
use crate::commands::ages_fit;
use crate::config::{
    entries_applied, keys_differ, law_settings_by_key, source_read, toml_entries, value_of, Problem,
    SettingText, Source,
};
use crate::date::{
    date_text, day_fits, day_number, day_of_text, days_in_month, days_named, integers_in,
    law_year_length, lemma_month_table, without_days_unit,
};
use crate::editor::editor_chosen;
use crate::fact::{cleaned, FactText};
use crate::form::{
    law_one_line_fixed, law_trimmed, lemma_joined_add, lemma_pieces_add, lemma_pieces_whole,
    lemma_words_add,
};
use crate::number::{decimal, is_digit, law_number_reads_back, padded, parsed_i64};
use crate::refusal::Reason;
use crate::store::{
    addition, facts_read, filled_lines, is_filled, is_unfinished, lemma_lines_add,
    lemma_single_line, saved, store_excluded,
};
use crate::text::{
    is_white, lines_of, on_one_line, pieces, trim_end, trim_start, trimmed, words_of, Separator,
};

verus! {

// ---- texts ----

proof fn lemma_start_trimmed(s: Seq<char>, a: int)
    requires
        0 <= a < s.len(),
        forall|i: int| 0 <= i < a ==> is_white(#[trigger] s[i]),
        !is_white(s[a]),
    ensures
        trim_start(s) == s.skip(a),
    decreases a,
{
    if a == 0 {
        assert(s.skip(0) =~= s);
    } else {
        assert(is_white(s[0]));
        let t = s.drop_first();
        assert forall|i: int| 0 <= i < a - 1 implies is_white(#[trigger] t[i]) by {
            assert(is_white(s[i + 1]));
        }
        lemma_start_trimmed(t, a - 1);
        assert(t.skip(a - 1) =~= s.skip(a));
    }
}

proof fn lemma_end_trimmed(s: Seq<char>, b: int)
    requires
        0 < b <= s.len(),
        forall|i: int| b <= i < s.len() ==> is_white(#[trigger] s[i]),
        !is_white(s[b - 1]),
    ensures
        trim_end(s) == s.take(b),
    decreases s.len(),
{
    if b == s.len() {
        assert(s.take(b) =~= s);
    } else {
        assert(is_white(s[s.len() - 1]));
        let t = s.drop_last();
        assert forall|i: int| b <= i < t.len() implies is_white(#[trigger] t[i]) by {
            assert(is_white(s[i]));
        }
        lemma_end_trimmed(t, b);
        assert(t.take(b) =~= s.take(b));
    }
}

/// A trimmed text is the part from the first character that is not white space up to the last one.
pub proof fn law_trimmed_part(s: Seq<char>, a: int, b: int)
    requires
        0 <= a < b <= s.len(),
        forall|i: int| 0 <= i < a ==> is_white(#[trigger] s[i]),
        forall|i: int| b <= i < s.len() ==> is_white(#[trigger] s[i]),
        !is_white(s[a]),
        !is_white(s[b - 1]),
    ensures
        trimmed(s) == s.subrange(a, b),
{
    lemma_start_trimmed(s, a);
    let t = s.skip(a);
    assert forall|i: int| b - a <= i < t.len() implies is_white(#[trigger] t[i]) by {
        assert(is_white(s[i + a]));
    }
    assert(t[b - a - 1] == s[b - 1]);
    lemma_end_trimmed(t, b - a);
    assert(t.take(b - a) =~= s.subrange(a, b));
}

/// On one line, every run of white space between words is one space, and none is left at the ends.
pub proof fn law_spaces_on_one_line(a: Seq<char>, c: char, b: Seq<char>)
    requires
        is_white(c),
    ensures
        is_all_white(a) ==> on_one_line(a.push(c) + b) == on_one_line(b),
        is_all_white(b) ==> on_one_line(a.push(c) + b) == on_one_line(a),
        !is_all_white(a) && !is_all_white(b) ==> on_one_line(a.push(c) + b) == on_one_line(a)
            + " "@ + on_one_line(b),
{
    lemma_words_add(a, c, b);
    lemma_all_white(a);
    lemma_all_white(b);
    law_trimmed(a);
    law_trimmed(b);
    let x = words_of(a);
    let y = words_of(b);
    if x.len() == 0 {
        assert(x + y =~= y);
    } else if y.len() == 0 {
        assert(x + y =~= x);
    } else {
        lemma_joined_add(x, y, " "@);
    }
}

/// A text without white space stands on one line as it is.
pub proof fn law_word_on_one_line(s: Seq<char>)
    requires
        forall|i: int| 0 <= i < s.len() ==> !is_white(#[trigger] s[i]),
    ensures
        on_one_line(s) == s,
{
    law_one_line_fixed(s);
    assert forall|i: int| 0 < i < s.len() && s[i - 1] == ' ' implies #[trigger] s[i] != ' ' by {
        assert(!is_white(s[i - 1]));
    }
    if s.len() > 0 {
        assert(!is_white(s[0]) && !is_white(s[s.len() - 1]));
    }
}

/// The lines of a text: what stands before the first line feed, without one carriage return at its
/// end, and then the lines of what stands behind it. A text without line feed is one line, and the
/// empty text has none.
pub proof fn law_lines(l: Seq<char>, rest: Seq<char>)
    requires
        forall|i: int| 0 <= i < l.len() ==> #[trigger] l[i] != '\n',
    ensures
        lines_of(l.push('\n') + rest) == seq![
            if l.len() > 0 && l.last() == '\r' {
                l.drop_last()
            } else {
                l
            },
        ] + lines_of(rest),
        l.len() == 0 ==> lines_of(l).len() == 0,
        l.len() > 0 ==> lines_of(l) == seq![l],
{
    lemma_single_line(l);
    lemma_lines_add(l.push('\n'), rest);
    lemma_pieces_whole(l, Separator::Is('\n'));
    assert(lines_of(l) =~= if l.len() == 0 {
        Seq::empty()
    } else {
        seq![l]
    });
}

/// The lines that count are those with more than white space, in their order.
pub proof fn law_blank_lines_skipped(text: Seq<char>)
    ensures
        filled_lines(text) == lines_of(text).filter(|l: Seq<char>| !is_all_white(l)),
{
    let p = |l: Seq<char>| !is_all_white(l);
    assert forall|l: Seq<char>| #[trigger] p(l) == is_filled()(l) by {
        lemma_all_white(l);
    }
    assert(p =~= is_filled());
}

// ---- stores ----

/// A fact is read from the store as it stands there, with its tags in the form in which they are
/// kept.
pub proof fn law_fact_read(f: FactText)
    ensures
        facts_read(seq![Some(f)]) == seq![FactText { tags: cleaned(f.tags), ..f }],
        facts_read(seq![None]) == Seq::<FactText>::empty(),
        facts_read(Seq::empty()) == Seq::<FactText>::empty(),
{
    let one = seq![Some(f)];
    let none: Seq<Option<FactText>> = seq![None];
    assert(one.drop_last() =~= Seq::<Option<FactText>>::empty());
    assert(none.drop_last() =~= Seq::<Option<FactText>>::empty());
    assert(facts_read(one.drop_last()) =~= Seq::<FactText>::empty());
    assert(facts_read(none.drop_last()) =~= Seq::<FactText>::empty());
    assert(facts_read(one) =~= seq![FactText { tags: cleaned(f.tags), ..f }]);
}

/// A text gets one more line at its end; where the last line has no end yet, it gets one first.
pub proof fn law_line_added(text: Seq<char>, line: Seq<char>)
    ensures
        text.len() == 0 || text.last() == '\n' ==> text + addition(is_unfinished(text), line)
            == text + line + "\n"@,
        text.len() > 0 && text.last() != '\n' ==> text + addition(is_unfinished(text), line)
            == text + "\n"@ + line + "\n"@,
{
    if text.len() == 0 || text.last() == '\n' {
        assert(text + addition(is_unfinished(text), line) =~= text + line + "\n"@);
    } else {
        assert(text + addition(is_unfinished(text), line) =~= text + "\n"@ + line + "\n"@);
    }
}

/// The store is excluded by one more line, unless a line names it already, with white space around
/// it or without.
pub proof fn law_store_excluded(text: Seq<char>)
    ensures
        match store_excluded(text) {
            None => exists|i: int|
                0 <= i < lines_of(text).len() && trimmed(#[trigger] lines_of(text)[i])
                    == "/.factsheet/"@,
            Some(updated) => {
                &&& forall|i: int|
                    0 <= i < lines_of(text).len() ==> trimmed(#[trigger] lines_of(text)[i])
                        != "/.factsheet/"@
                &&& text.len() == 0 || text.last() == '\n' ==> updated == text + "/.factsheet/"@
                    + "\n"@
                &&& text.len() > 0 && text.last() != '\n' ==> updated == text + "\n"@
                    + "/.factsheet/"@ + "\n"@
            },
        },
{
    law_line_added(text, "/.factsheet/"@);
}

// ---- dates ----

/// The days are counted from the first of January 1970, one after the other: within a month, from
/// the last day of a month to the first of the next, and from the last day of a year to the first of
/// the next.
pub proof fn law_days_follow(y: int, m: int, d: int)
    ensures
        day_number(1970, 1, 1) == 0,
        day_number(y, m, d + 1) == day_number(y, m, d) + 1,
        1 <= m < 12 ==> day_number(y, m + 1, 1) == day_number(y, m, days_in_month(y, m)) + 1,
        day_number(y + 1, 1, 1) == day_number(y, 12, 31) + 1,
{
    law_year_length(y);
    lemma_month_table(1970, 1);
    lemma_month_table(y, 12);
    lemma_month_table(y + 1, 1);
}

/// The lengths of the months: February has a day more every fourth year, but of the full centuries
/// only in every fourth.
pub proof fn law_month_lengths(y: int)
    ensures
        days_in_month(y, 1) == 31,
        y % 4 != 0 ==> days_in_month(y, 2) == 28,
        y % 4 == 0 && y % 100 != 0 ==> days_in_month(y, 2) == 29,
        y % 100 == 0 && y % 400 != 0 ==> days_in_month(y, 2) == 28,
        y % 400 == 0 ==> days_in_month(y, 2) == 29,
        days_in_month(y, 3) == 31,
        days_in_month(y, 4) == 30,
        days_in_month(y, 5) == 31,
        days_in_month(y, 6) == 30,
        days_in_month(y, 7) == 31,
        days_in_month(y, 8) == 31,
        days_in_month(y, 9) == 30,
        days_in_month(y, 10) == 31,
        days_in_month(y, 11) == 30,
        days_in_month(y, 12) == 31,
{
}

/// A date is written as year, month and day with hyphens between them, in four, two and two digits
/// or more.
pub proof fn law_date_form(y: nat, m: nat, d: nat)
    ensures
        date_text((y as int, m as int, d as int)) == padded(y, 4) + "-"@ + padded(m, 2) + "-"@
            + padded(d, 2),
{
}

/// A year, a month and a day with hyphens between them, with leading zeros or without, are read as
/// the day that they name, and as the first of January 1970 where there is no such month or no month
/// has such a day.
pub proof fn law_day_read(y: nat, m: nat, d: nat, i: nat, j: nat, k: nat)
    requires
        y <= i64::MAX,
        m <= i64::MAX,
        d <= i64::MAX,
    ensures
        day_of_text(padded(y, i) + "-"@ + padded(m, j) + "-"@ + padded(d, k)) == if 1 <= m <= 12
            && 1 <= d <= 31 {
            day_number(y as int, m as int, d as int)
        } else {
            0
        },
{
    reveal_strlit("-");
    let a = padded(y, i);
    let b = padded(m, j);
    let c = padded(d, k);
    law_number_reads_back(y, i);
    law_number_reads_back(m, j);
    law_number_reads_back(d, k);
    let sep = Separator::Is('-');
    lemma_pieces_whole(a, sep);
    lemma_pieces_whole(b, sep);
    lemma_pieces_whole(c, sep);
    lemma_pieces_add(b, '-', c, sep);
    lemma_pieces_add(a, '-', b.push('-') + c, sep);
    let s = a + "-"@ + b + "-"@ + c;
    assert(s =~= a.push('-') + (b.push('-') + c));
    let parts = seq![a, b, c];
    assert(pieces(s, sep) =~= parts);
    assert(parts.drop_last() =~= seq![a, b]);
    assert(seq![a, b].drop_last() =~= seq![a]);
    assert(seq![a].drop_last() =~= Seq::<Seq<char>>::empty());
    assert(integers_in(seq![a].drop_last()) =~= Seq::<int>::empty());
    assert(integers_in(seq![a]) =~= seq![y as int]);
    assert(integers_in(seq![a, b]) =~= seq![y as int, m as int]);
    assert(integers_in(parts) =~= seq![y as int, m as int, d as int]);
}

/// Facts with dates of four digits for the year can be listed by age, whatever is asked for.
pub proof fn law_dates_can_be_listed(
    facts: Seq<FactText>,
    tags: Seq<Seq<char>>,
    stale: Option<Seq<char>>,
)
    requires
        forall|i: int|
            0 <= i < facts.len() ==> exists|y: nat, m: nat, d: nat|
                y <= 9999 && m <= 99 && d <= 99 && (#[trigger] facts[i]).ts == #[trigger] date_text(
                    (y as int, m as int, d as int),
                ),
    ensures
        ages_fit(facts, tags, stale),
{
    assert forall|i: int| 0 <= i < facts.len() implies day_fits(
        day_of_text((#[trigger] facts[i]).ts),
    ) by {
        let (y, m, d) = choose|y: nat, m: nat, d: nat|
            y <= 9999 && m <= 99 && d <= 99 && facts[i].ts == #[trigger] date_text(
                (y as int, m as int, d as int),
            );
        law_day_read(y, m, d, 4, 2, 2);
        if 1 <= m <= 12 {
            lemma_month_table(y as int, m as int);
        }
    }
}

// ---- ages ----

proof fn lemma_unit_taken_off(s: Seq<char>, k: nat)
    requires
        s.len() > 0,
        s.last() != 'd',
    ensures
        without_days_unit(s + Seq::new(k, |i: int| 'd')) == s,
    decreases k,
{
    let t = s + Seq::new(k, |i: int| 'd');
    if k == 0 {
        assert(t =~= s);
    } else {
        assert(t.last() == 'd');
        assert(t.drop_last() =~= s + Seq::new((k - 1) as nat, |i: int| 'd'));
        lemma_unit_taken_off(s, (k - 1) as nat);
    }
}

/// A number of days is read with white space around it or without, with the letter for days behind
/// it or without, and with leading zeros or without.
pub proof fn law_age_read(n: nat, width: nat, k: nat, a: Seq<char>, b: Seq<char>)
    requires
        n <= i64::MAX,
        is_all_white(a),
        is_all_white(b),
    ensures
        days_named(a + padded(n, width) + Seq::new(k, |i: int| 'd') + b) == Ok::<int, Reason>(
            n as int,
        ),
{
    law_number_reads_back(n, width);
    let digits = padded(n, width);
    let units = Seq::new(k, |i: int| 'd');
    let t = digits + units;
    let s = a + digits + units + b;
    assert(digits.len() > 0) by {
        if digits.len() == 0 {
            assert(parsed_i64(digits) is None);
        }
    }
    assert(is_digit(digits[0]));
    assert(is_digit(digits[digits.len() - 1]));
    let x = a.len() as int;
    let y = x + t.len();
    assert forall|i: int| 0 <= i < x implies is_white(#[trigger] s[i]) by {
        assert(s[i] == a[i]);
    }
    assert forall|i: int| y <= i < s.len() implies is_white(#[trigger] s[i]) by {
        assert(s[i] == b[i - y]);
    }
    assert(s[x] == t[0]);
    assert(s[y - 1] == t[t.len() - 1]);
    law_trimmed_part(s, x, y);
    assert(s.subrange(x, y) =~= t);
    lemma_unit_taken_off(digits, k);
}

/// A text that is no number of days is refused, with that text in the refusal; and what is read is
/// never negative.
pub proof fn law_age_refused(s: Seq<char>)
    ensures
        match days_named(s) {
            Ok(n) => n >= 0,
            Err(e) => e == (Reason::BadStale { value: s }),
        },
        is_all_white(s) ==> days_named(s) is Err,
        (exists|i: int|
            0 <= i < s.len() && !is_white(#[trigger] s[i]) && !is_digit(s[i]) && s[i] != 'd' && s[i]
                != '+' && s[i] != '-') ==> days_named(s) is Err,
{
    lemma_all_white(s);
    if days_named(s) is Ok {
        let t = trimmed(s);
        let u = without_days_unit(t);
        lemma_unit_is_rest(t);
        assert(u.len() > 0);
        assert(t.len() > 0);
        assert forall|i: int| 0 <= i < s.len() && !is_white(#[trigger] s[i]) implies is_digit(s[i])
            || s[i] == 'd' || s[i] == '+' || s[i] == '-' by {
            lemma_trim_keeps(s, s[i]);
            let j = choose|j: int| 0 <= j < t.len() && t[j] == s[i];
            if j < u.len() {
                assert(u[j] == t[j]);
                if j == 0 {
                    if u[0] != '+' && u[0] != '-' {
                        assert(is_digit(u[0]));
                    }
                } else if u[0] == '+' || u[0] == '-' {
                    assert(u.drop_first()[j - 1] == u[j]);
                    assert(is_digit(u.drop_first()[j - 1]));
                } else {
                    assert(is_digit(u[j]));
                }
            }
        }
    }
}

proof fn lemma_unit_is_rest(t: Seq<char>)
    ensures
        ({
            let u = without_days_unit(t);
            &&& u.len() <= t.len()
            &&& forall|j: int| 0 <= j < u.len() ==> #[trigger] u[j] == t[j]
            &&& forall|j: int| u.len() <= j < t.len() ==> #[trigger] t[j] == 'd'
        }),
    decreases t.len(),
{
    if t.len() > 0 && t.last() == 'd' {
        let r = t.drop_last();
        lemma_unit_is_rest(r);
        let u = without_days_unit(t);
        assert forall|j: int| u.len() <= j < t.len() implies #[trigger] t[j] == 'd' by {
            if j < r.len() {
                assert(r[j] == t[j]);
            }
        }
        assert forall|j: int| 0 <= j < u.len() implies #[trigger] u[j] == t[j] by {
            assert(u[j] == r[j]);
        }
    }
}

proof fn lemma_trim_keeps(s: Seq<char>, c: char)
    requires
        s.contains(c),
        !is_white(c),
    ensures
        trimmed(s).contains(c),
{
    lemma_start_keeps(s, c);
    lemma_end_keeps(trim_start(s), c);
}

proof fn lemma_start_keeps(s: Seq<char>, c: char)
    requires
        s.contains(c),
        !is_white(c),
    ensures
        trim_start(s).contains(c),
    decreases s.len(),
{
    if s.len() > 0 && is_white(s[0]) {
        let i = choose|i: int| 0 <= i < s.len() && s[i] == c;
        assert(s.drop_first()[i - 1] == c);
        lemma_start_keeps(s.drop_first(), c);
    }
}

proof fn lemma_end_keeps(s: Seq<char>, c: char)
    requires
        s.contains(c),
        !is_white(c),
    ensures
        trim_end(s).contains(c),
    decreases s.len(),
{
    if s.len() > 0 && is_white(s.last()) {
        let i = choose|i: int| 0 <= i < s.len() && s[i] == c;
        assert(s.drop_last()[i] == c);
        lemma_end_keeps(s.drop_last(), c);
    }
}

// ---- numbers ----

/// A number is written in decimal: its last digit stands for the rest by ten, and what stands before
/// it for the number of full tens.
pub proof fn law_decimal(n: nat, d: nat)
    requires
        n > 0,
        d < 10,
    ensures
        decimal(n * 10 + d) == decimal(n) + decimal(d),
        decimal(d).len() == 1,
        decimal(d)[0] as int == '0' as int + d,
{
    assert((n * 10 + d) / 10 == n);
    assert((n * 10 + d) % 10 == d);
    assert(decimal(n * 10 + d) =~= decimal(n) + decimal(d));
}

// ---- the editor ----

/// The editor is the one that the first of the two variables names that is set at all; where that
/// one is blank, or neither is set, it is the one that stands in.
pub proof fn law_editor(visual: Option<Seq<char>>, editor: Option<Seq<char>>, fallback: Seq<char>)
    ensures
        visual matches Some(s) ==> editor_chosen(visual, editor, fallback) == if is_all_white(s) {
            fallback
        } else {
            s
        },
        visual is None ==> editor_chosen(visual, editor, fallback) == editor_chosen(
            editor,
            None,
            fallback,
        ),
        visual is None && editor is None ==> editor_chosen(visual, editor, fallback) == fallback,
{
    if let Some(s) = visual {
        lemma_all_white(s);
    }
}

// ---- settings ----

/// Every setting in the file takes effect, whatever else stands there: the instructions if they are
/// a text, and a number if it is a count; else the instructions are a problem, and the number keeps
/// its default.
pub proof fn law_setting_takes_effect(entries: Seq<(Seq<char>, SettingText)>, i: int)
    requires
        keys_differ(entries),
        0 <= i < entries.len(),
    ensures
        ({
            let (key, value) = entries[i];
            let s = entries_applied(entries).settings;
            &&& key == "user_instructions"@ ==> s.user_instructions == match value {
                SettingText::Text(text) => Ok::<Seq<char>, Problem>(text),
                _ => Err::<Seq<char>, Problem>(Problem::NotAString),
            }
            &&& key == "max_text"@ ==> s.max_text == match value {
                SettingText::Integer(n) => if 0 <= n <= usize::MAX {
                    n
                } else {
                    200
                },
                _ => 200,
            }
            &&& key == "hot_warn"@ ==> s.hot_warn == match value {
                SettingText::Integer(n) => if 0 <= n <= usize::MAX {
                    n
                } else {
                    40
                },
                _ => 40,
            }
        }),
{
    law_settings_by_key(entries);
    assert(value_of(entries, entries[i].0) == Some(entries[i].1));
}

/// A setting that is not in the file has its default.
pub proof fn law_setting_left_out(entries: Seq<(Seq<char>, SettingText)>, key: Seq<char>)
    requires
        forall|i: int| 0 <= i < entries.len() ==> (#[trigger] entries[i]).0 != key,
    ensures
        ({
            let s = entries_applied(entries).settings;
            &&& key == "user_instructions"@ ==> s.user_instructions == Ok::<Seq<char>, Problem>(
                Seq::empty(),
            )
            &&& key == "max_text"@ ==> s.max_text == 200
            &&& key == "hot_warn"@ ==> s.hot_warn == 40
        }),
    decreases entries.len(),
{
    lemma_keys();
    if entries.len() > 0 {
        let shorter = entries.drop_last();
        assert forall|i: int| 0 <= i < shorter.len() implies (#[trigger] shorter[i]).0 != key by {
            assert(shorter[i] == entries[i]);
        }
        assert(entries[entries.len() - 1].0 != key);
        law_setting_left_out(shorter, key);
    }
}

proof fn lemma_keys()
    ensures
        "user_instructions"@ != "max_text"@,
        "user_instructions"@ != "hot_warn"@,
        "max_text"@ != "hot_warn"@,
{
    reveal_strlit("user_instructions");
    reveal_strlit("max_text");
    reveal_strlit("hot_warn");
    assert("max_text"@[0] == 'm');
    assert("hot_warn"@[0] == 'h');
    assert("user_instructions"@[0] == 'u');
}

/// Whether an entry of the settings cannot be used.
pub open spec fn is_misplaced() -> spec_fn((Seq<char>, SettingText)) -> bool {
    |e: (Seq<char>, SettingText)|
        if e.0 == "max_text"@ || e.0 == "hot_warn"@ {
            !(e.1 matches SettingText::Integer(n) && 0 <= n <= usize::MAX)
        } else {
            e.0 != "user_instructions"@
        }
}

/// What is said of an entry that cannot be used.
pub open spec fn complaint() -> spec_fn((Seq<char>, SettingText)) -> Seq<char> {
    |e: (Seq<char>, SettingText)|
        if e.0 == "max_text"@ || e.0 == "hot_warn"@ {
            "factsheet: config: '"@ + e.0 + "' wants a non-negative integer; default kept"@
        } else {
            "factsheet: config: unknown key '"@ + e.0 + "' ignored"@
        }
}

/// There is one warning for every number that is no count and for every unknown key, in the order of
/// the file, and no other.
pub proof fn law_warnings(entries: Seq<(Seq<char>, SettingText)>)
    ensures
        entries_applied(entries).warnings == entries.filter(is_misplaced()).map_values(complaint()),
    decreases entries.len(),
{
    reveal(Seq::filter);
    lemma_keys();
    if entries.len() == 0 {
        assert(entries_applied(entries).warnings =~= entries.filter(is_misplaced()).map_values(
            complaint(),
        ));
    } else {
        let shorter = entries.drop_last();
        law_warnings(shorter);
        let e = entries.last();
        let before = shorter.filter(is_misplaced());
        if is_misplaced()(e) {
            assert(before.push(e).map_values(complaint()) =~= before.map_values(complaint()).push(
                complaint()(e),
            ));
        }
        assert(entries_applied(entries).warnings =~= entries.filter(is_misplaced()).map_values(
            complaint(),
        ));
    }
}

/// Where the settings come from: without a file, and with one that was just made, all have their
/// defaults; so they have with a file that cannot be made, read or understood, and then the problem
/// stands in for the instructions; else the entries of the file count.
pub proof fn law_sources(source: Source)
    ensures
        ({
            let l = source_read(source);
            let defaults = l.settings.max_text == 200 && l.settings.hot_warn == 40
                && l.warnings.len() == 0;
            let given = l.settings.user_instructions;
            match source {
                Source::Nowhere => defaults && given == Ok::<Seq<char>, Problem>(Seq::empty()),
                Source::Created => defaults && given == Ok::<Seq<char>, Problem>(Seq::empty()),
                Source::NotCreated => defaults && given == Err::<Seq<char>, Problem>(
                    Problem::CannotCreate,
                ),
                Source::Unreadable => defaults && given == Err::<Seq<char>, Problem>(
                    Problem::CannotRead,
                ),
                Source::Text(text) => match toml_entries(text@) {
                    None => defaults && given == Err::<Seq<char>, Problem>(Problem::InvalidSyntax),
                    Some(entries) => l == entries_applied(entries),
                },
            }
        }),
{
}

// ---- files that are written ----

/// What is saved is one line per entry, each with its end.
pub proof fn law_saved(a: Seq<Seq<char>>, l: Seq<char>)
    ensures
        saved(Seq::empty()) == Seq::<char>::empty(),
        saved(a.push(l)) == saved(a) + l + "\n"@,
{
    assert(a.push(l).drop_last() =~= a);
}

} // verus!
