//! The files: one fact per line, one project per line.

use vstd::prelude::*;

use crate::fact::{
    clean_tags, cleaned, is_clean, law_clean_tags, lemma_views_push, views, Fact, FactText,
};
use crate::form::{lemma_pieces_add, lemma_pieces_whole, lemma_trimmed_is};
use crate::text::{
    all_trimmed, chars_of, is_white, lemma_pieces_nonempty, lines, lines_of, pieces, push_text,
    same, texts, trim, trim_start, trimmed, without_return, without_returns, Separator,
};

verus! {

// ---- lines of a file ----

pub open spec fn is_filled() -> spec_fn(Seq<char>) -> bool {
    |l: Seq<char>| trimmed(l).len() > 0
}

/// The lines of a file that are not blank.
pub open spec fn filled_lines(text: Seq<char>) -> Seq<Seq<char>> {
    lines_of(text).filter(is_filled())
}

/// The lines of a file that are not blank; every one of them stands for an entry.
pub fn entry_lines(text: &str) -> (list: Vec<String>)
    ensures
        texts(list@) == filled_lines(text@),
{
    let all = lines(text);
    let mut list: Vec<String> = Vec::new();
    proof {
        reveal(Seq::filter);
    }
    for i in 0..all.len()
        invariant
            texts(list@) == texts(all@).take(i as int).filter(is_filled()),
    {
        assert(texts(all@).take(i + 1).drop_last() =~= texts(all@).take(i as int));
        proof {
            reveal(Seq::filter);
        }
        if !trim(&all[i]).as_str().is_empty() {
            push_text(&mut list, all[i].clone());
        }
    }
    assert(texts(all@).take(all@.len() as int) =~= texts(all@));
    list
}

/// The file with the given lines.
pub open spec fn saved(list: Seq<Seq<char>>) -> Seq<char>
    decreases list.len(),
{
    if list.len() == 0 {
        Seq::empty()
    } else {
        saved(list.drop_last()) + list.last() + "\n"@
    }
}

/// The contents of a file with the given lines.
pub fn save(list: &[String]) -> (text: String)
    ensures
        text@ == saved(texts(list@)),
{
    let mut text = String::new();
    for i in 0..list.len()
        invariant
            text@ == saved(texts(list@).take(i as int)),
    {
        assert(texts(list@).take(i + 1).drop_last() =~= texts(list@).take(i as int));
        text.append(&list[i]);
        text.append("\n");
    }
    assert(texts(list@).take(list@.len() as int) =~= texts(list@));
    text
}

/// What is written behind the end of a file to add a line; an unfinished last line is ended
/// first.
pub open spec fn addition(unfinished: bool, line: Seq<char>) -> Seq<char> {
    if unfinished {
        "\n"@ + line + "\n"@
    } else {
        line + "\n"@
    }
}

/// Whether the last line of a file lacks its end.
pub open spec fn is_unfinished(text: Seq<char>) -> bool {
    text.len() > 0 && text.last() != '\n'
}

/// What is written behind the end of a file to add a line, by the last byte of the file.
pub fn append(last: Option<u8>, line: &str) -> (text: String)
    ensures
        text@ == addition(last is Some && last != Some(10u8), line@),
{
    let mut text = String::new();
    let unfinished = match last {
        Some(b) => b != 10,
        None => false,
    };
    if unfinished {
        text.append("\n");
    }
    text.append(line);
    text.append("\n");
    assert(text@ =~= addition(unfinished, line@));
    text
}

/// What ends with a line feed, or is empty, has its lines apart from those of what follows.
pub proof fn lemma_lines_add(a: Seq<char>, b: Seq<char>)
    requires
        !is_unfinished(a),
    ensures
        lines_of(a + b) == lines_of(a) + lines_of(b),
{
    let sep = Separator::Is('\n');
    if a.len() == 0 {
        assert(a + b =~= b);
        assert(a =~= Seq::<char>::empty());
        assert(lines_of(a) =~= Seq::<Seq<char>>::empty());
        assert(lines_of(a + b) =~= lines_of(a) + lines_of(b));
    } else {
        let c = a.drop_last();
        let nothing = Seq::<char>::empty();
        assert(a =~= c.push('\n') + nothing);
        assert(a + b =~= c.push('\n') + b);
        lemma_pieces_add(c, '\n', b, sep);
        lemma_pieces_add(c, '\n', nothing, sep);
        lemma_pieces_nonempty(b, sep);
        let p = pieces(a + b, sep);
        assert(p.drop_last() =~= pieces(c, sep) + pieces(b, sep).drop_last());
        assert(p.last() == pieces(b, sep).last());
        assert(pieces(a, sep) =~= pieces(c, sep).push(nothing));
        assert(pieces(a, sep).drop_last() =~= pieces(c, sep));
        assert(without_returns(p.drop_last()) =~= without_returns(pieces(c, sep))
            + without_returns(pieces(b, sep).drop_last()));
        assert(lines_of(a + b) =~= lines_of(a) + lines_of(b));
    }
}

pub proof fn lemma_single_line(l: Seq<char>)
    requires
        forall|i: int| 0 <= i < l.len() ==> #[trigger] l[i] != '\n',
    ensures
        lines_of(l.push('\n')) == seq![without_return(l)],
{
    let sep = Separator::Is('\n');
    let nothing = Seq::<char>::empty();
    lemma_pieces_whole(l, sep);
    lemma_pieces_add(l, '\n', nothing, sep);
    assert(l.push('\n') + nothing =~= l.push('\n'));
    assert(pieces(l.push('\n'), sep) =~= seq![l, nothing]);
    assert(seq![l, nothing].drop_last() =~= seq![l]);
    assert(lines_of(l.push('\n')) =~= seq![without_return(l)]);
}

/// The last line of a text, if it lacks its end.
pub open spec fn open_line(text: Seq<char>) -> Seq<char> {
    pieces(text, Separator::Is('\n')).last()
}

/// Ending the last line of a text changes its lines only by a carriage return at its end.
proof fn lemma_lines_ended(text: Seq<char>)
    requires
        is_unfinished(text),
    ensures
        lines_of(text).len() > 0,
        lines_of(text).last() == open_line(text),
        lines_of(text.push('\n')) == lines_of(text).drop_last().push(
            without_return(open_line(text)),
        ),
{
    let sep = Separator::Is('\n');
    let p = pieces(text, sep);
    lemma_pieces_nonempty(text.drop_last(), sep);
    assert(p.last().len() > 0);
    let q = pieces(text.push('\n'), sep);
    assert(text.push('\n').drop_last() =~= text);
    assert(q.drop_last() =~= p);
    assert(without_returns(p) =~= without_returns(p.drop_last()).push(without_return(p.last())));
    assert(lines_of(text).drop_last() =~= without_returns(p.drop_last()));
}

/// Whether a text can stand in a file as one line: it has no line feed, no carriage return at its
/// end, and is not blank.
pub open spec fn is_entry(l: Seq<char>) -> bool {
    &&& forall|i: int| 0 <= i < l.len() ==> #[trigger] l[i] != '\n'
    &&& trimmed(l).len() > 0
    &&& l.last() != '\r'
}

proof fn lemma_filled_add(a: Seq<Seq<char>>, l: Seq<char>)
    ensures
        trimmed(l).len() > 0 ==> a.push(l).filter(is_filled()) == a.filter(is_filled()).push(l),
        trimmed(l).len() == 0 ==> a.push(l).filter(is_filled()) == a.filter(is_filled()),
{
    reveal(Seq::filter);
    assert(a.push(l).drop_last() =~= a);
}

proof fn lemma_entry_added(text: Seq<char>, l: Seq<char>)
    requires
        !is_unfinished(text),
        is_entry(l),
    ensures
        filled_lines(text + l.push('\n')) == filled_lines(text).push(l),
{
    lemma_lines_add(text, l.push('\n'));
    lemma_single_line(l);
    assert(lines_of(text + l.push('\n')) =~= lines_of(text).push(l));
    lemma_filled_add(lines_of(text), l);
}

proof fn lemma_saved_finished(list: Seq<Seq<char>>)
    ensures
        !is_unfinished(saved(list)),
{
    reveal_strlit("\n");
}

/// What is saved is what is read back: a file with the given lines has these lines as its
/// entries.
pub proof fn law_saved_lines_return(list: Seq<Seq<char>>)
    requires
        forall|i: int| 0 <= i < list.len() ==> is_entry(#[trigger] list[i]),
    ensures
        filled_lines(saved(list)) == list,
    decreases list.len(),
{
    reveal_strlit("\n");
    if list.len() == 0 {
        reveal(Seq::filter);
        assert(lines_of(saved(list)) =~= Seq::<Seq<char>>::empty());
        assert(filled_lines(saved(list)) =~= list);
    } else {
        let shorter = list.drop_last();
        assert forall|i: int| 0 <= i < shorter.len() implies is_entry(#[trigger] shorter[i]) by {
            assert(shorter[i] == list[i]);
        }
        law_saved_lines_return(shorter);
        lemma_saved_finished(shorter);
        assert(is_entry(list[list.len() - 1]));
        lemma_entry_added(saved(shorter), list.last());
        assert(saved(list) =~= saved(shorter) + list.last().push('\n'));
        assert(filled_lines(saved(list)) =~= list);
    }
}

/// Adding a line to a file adds one entry and keeps the others, also when the last line of the
/// file was left without its end; only there a carriage return behind it is lost.
pub proof fn law_append_adds_one(text: Seq<char>, l: Seq<char>)
    requires
        is_entry(l),
        !(trimmed(open_line(text)).len() > 0 && open_line(text).last() == '\r'),
    ensures
        filled_lines(text + addition(is_unfinished(text), l)) == filled_lines(text).push(l),
{
    reveal_strlit("\n");
    if is_unfinished(text) {
        let ended = text.push('\n');
        let last = open_line(text);
        lemma_lines_ended(text);
        lemma_entry_added(ended, l);
        assert(text + addition(true, l) =~= ended + l.push('\n'));
        let before = lines_of(text).drop_last();
        assert(before.push(last) =~= lines_of(text));
        lemma_filled_add(before, last);
        lemma_filled_add(before, without_return(last));
        lemma_trimmed_return(last);
    } else {
        lemma_entry_added(text, l);
        assert(text + addition(false, l) =~= text + l.push('\n'));
    }
}

proof fn lemma_trim_start_last(s: Seq<char>)
    requires
        s.len() > 0,
        is_white(s.last()),
    ensures
        trim_start(s).len() == 0 ==> trim_start(s.drop_last()).len() == 0,
        trim_start(s).len() > 0 ==> trim_start(s).drop_last() == trim_start(s.drop_last())
            && is_white(trim_start(s).last()),
    decreases s.len(),
{
    if is_white(s[0]) {
        if s.len() == 1 {
            assert(s.drop_first() =~= Seq::<char>::empty());
            assert(s.drop_last() =~= Seq::<char>::empty());
        } else {
            assert(s.drop_first().last() == s.last());
            lemma_trim_start_last(s.drop_first());
            assert(s.drop_last().drop_first() =~= s.drop_first().drop_last());
        }
    }
}

proof fn lemma_trimmed_return(line: Seq<char>)
    ensures
        trimmed(without_return(line)) == trimmed(line),
{
    if line.len() > 0 && line.last() == '\r' {
        lemma_trim_start_last(line);
        assert(trim_start(line) =~= Seq::<char>::empty() ==> trim_start(line.drop_last())
            =~= Seq::<char>::empty());
    }
}

// ---- facts ----

/// A fact as it is read from the store: with its tags in order.
pub open spec fn fact_read(f: FactText) -> FactText {
    FactText { tags: cleaned(f.tags), ..f }
}

pub open spec fn opt_fact(f: Option<Fact>) -> Option<FactText> {
    match f {
        Some(f) => Some(f@),
        None => None,
    }
}

pub open spec fn opt_facts(list: Seq<Option<Fact>>) -> Seq<Option<FactText>> {
    list.map_values(|f: Option<Fact>| opt_fact(f))
}

/// Takes in what a line of the store holds; a corrupt line holds nothing.
pub fn parse_fact(decoded: Option<Fact>) -> (fact: Option<Fact>)
    ensures
        opt_fact(fact) == match opt_fact(decoded) {
            Some(f) => Some(fact_read(f)),
            None => None,
        },
{
    match decoded {
        Some(f) => {
            let tags = clean_tags(&f.tags);
            Some(Fact { id: f.id, text: f.text, check: f.check, tags, ts: f.ts })
        },
        None => None,
    }
}

/// The facts among what the lines of the store hold.
pub open spec fn facts_read(decoded: Seq<Option<FactText>>) -> Seq<FactText>
    decreases decoded.len(),
{
    if decoded.len() == 0 {
        Seq::empty()
    } else {
        let before = facts_read(decoded.drop_last());
        match decoded.last() {
            Some(f) => before.push(fact_read(f)),
            None => before,
        }
    }
}

/// Takes in what the lines of the store hold. A corrupt line does not hide the other facts.
pub fn load(decoded: Vec<Option<Fact>>) -> (facts: Vec<Fact>)
    ensures
        views(facts@) == facts_read(opt_facts(decoded@)),
{
    let ghost all = opt_facts(decoded@);
    let mut facts: Vec<Fact> = Vec::new();
    assert(views(facts@) =~= facts_read(all.take(0)));
    for line in it: decoded.into_iter()
        invariant
            it.seq() == decoded@,
            all == opt_facts(decoded@),
            views(facts@) == facts_read(all.take(it.index() as int)),
    {
        let ghost i = it.index() as int;
        assert(all[i] == opt_fact(line));
        assert(all.take(i + 1).drop_last() =~= all.take(i));
        if let Some(f) = parse_fact(line) {
            proof {
                lemma_views_push(facts@, f);
            }
            facts.push(f);
        }
    }
    assert(all.take(all.len() as int) =~= all);
    facts
}

proof fn lemma_facts_read_add(a: Seq<Option<FactText>>, b: Seq<Option<FactText>>)
    ensures
        facts_read(a + b) == facts_read(a) + facts_read(b),
    decreases b.len(),
{
    if b.len() == 0 {
        assert(a + b =~= a);
        assert(facts_read(a) + facts_read(b) =~= facts_read(a));
    } else {
        assert((a + b).drop_last() =~= a + b.drop_last());
        lemma_facts_read_add(a, b.drop_last());
        assert(facts_read(a + b) =~= facts_read(a) + facts_read(b));
    }
}

/// A corrupt line hides none of the facts before and behind it.
pub proof fn law_corrupt_line_hides_nothing(
    before: Seq<Option<FactText>>,
    behind: Seq<Option<FactText>>,
)
    ensures
        facts_read(before.push(None) + behind) == facts_read(before + behind),
        facts_read(before + behind) == facts_read(before) + facts_read(behind),
{
    lemma_facts_read_add(before, behind);
    lemma_facts_read_add(before.push(None), behind);
    assert(before.push(None::<FactText>).drop_last() =~= before);
}

/// Facts with clean tags are read as they were stored.
pub proof fn law_stored_facts_return(facts: Seq<FactText>)
    requires
        forall|i: int| 0 <= i < facts.len() ==> is_clean((#[trigger] facts[i]).tags),
    ensures
        facts_read(facts.map_values(|f: FactText| Some(f))) == facts,
    decreases facts.len(),
{
    let stored = facts.map_values(|f: FactText| Some(f));
    if facts.len() > 0 {
        let shorter = facts.drop_last();
        assert forall|i: int| 0 <= i < shorter.len() implies is_clean(
            (#[trigger] shorter[i]).tags,
        ) by {
            assert(shorter[i] == facts[i]);
        }
        law_stored_facts_return(shorter);
        assert(stored.drop_last() =~= shorter.map_values(|f: FactText| Some(f)));
        assert(is_clean(facts[facts.len() - 1].tags));
        law_clean_tags(facts.last().tags);
        assert(fact_read(facts.last()) =~= facts.last());
    }
    assert(facts_read(stored) =~= facts);
}

// ---- the list of files that Git leaves alone ----

/// Whether the list names the store.
pub open spec fn names_store(text: Seq<char>) -> bool {
    exists|i: int|
        0 <= i < lines_of(text).len() && trimmed(#[trigger] lines_of(text)[i]) == "/.factsheet/"@
}

/// The list with an entry for the store, unless it has one.
pub open spec fn store_excluded(text: Seq<char>) -> Option<Seq<char>> {
    if names_store(text) {
        None
    } else {
        Some(text + addition(is_unfinished(text), "/.factsheet/"@))
    }
}

/// The new contents of the list of files that Git leaves alone, or nothing if it names the store
/// already.
pub fn add_git_exclude(current: &str) -> (updated: Option<String>)
    ensures
        match updated {
            Some(s) => store_excluded(current@) == Some(s@),
            None => store_excluded(current@) is None,
        },
{
    let list = lines(current);
    for i in 0..list.len()
        invariant
            texts(list@) == lines_of(current@),
            forall|j: int|
                0 <= j < i ==> trimmed(#[trigger] lines_of(current@)[j]) != "/.factsheet/"@,
    {
        assert(lines_of(current@)[i as int] == list@[i as int]@);
        if same(&trim(&list[i]), "/.factsheet/") {
            return None;
        }
    }
    let chars = chars_of(current);
    let mut updated = current.to_owned();
    if chars.len() > 0 && chars[chars.len() - 1] != '\n' {
        updated.append("\n");
    }
    updated.append("/.factsheet/");
    updated.append("\n");
    assert(updated@ =~= current@ + addition(is_unfinished(current@), "/.factsheet/"@));
    Some(updated)
}

/// Once the list names the store, there is nothing more to do, and its other lines are as before.
pub proof fn law_store_excluded_once(text: Seq<char>)
    ensures
        match store_excluded(text) {
            Some(updated) => {
                &&& names_store(updated)
                &&& store_excluded(updated) is None
                &&& all_trimmed(lines_of(updated)) == all_trimmed(lines_of(text)).push(
                    "/.factsheet/"@,
                )
            },
            None => names_store(text),
        },
{
    reveal_strlit("\n");
    reveal_strlit("/.factsheet/");
    let l = "/.factsheet/"@;
    lemma_trimmed_is(l);
    lemma_single_line(l);
    if let Some(updated) = store_excluded(text) {
        let ended = if is_unfinished(text) {
            text.push('\n')
        } else {
            text
        };
        assert(updated =~= ended + l.push('\n'));
        lemma_lines_add(ended, l.push('\n'));
        let all = lines_of(updated);
        assert(all =~= lines_of(ended).push(l));
        assert(trimmed(all[all.len() - 1]) == l);
        if is_unfinished(text) {
            lemma_lines_ended(text);
            lemma_trimmed_return(open_line(text));
        }
        assert(all_trimmed(lines_of(ended)) =~= all_trimmed(lines_of(text)));
        assert(all_trimmed(all) =~= all_trimmed(lines_of(text)).push(l));
    }
}

} // verus!
