//! Facts, their tags, and the lines that show them.

use vstd::prelude::*;

use crate::form::{is_one_line, law_trimmed};
use crate::refusal::{outcome, Reason, Refusal};
use crate::text::{
    char_count, contains_text, copy_texts, join, joined, lemma_texts_push, same, texts, trim,
    trimmed,
};

verus! {

/// One remembered fact.
#[derive(Debug)]
pub struct Fact {
    pub id: String,
    pub text: String,
    /// A command that checks the fact; it is stored and shown, never run.
    pub check: String,
    pub tags: Vec<String>,
    /// The day of the last change, `YYYY-MM-DD`.
    pub ts: String,
}

/// What a fact holds.
#[verifier::ext_equal]
pub struct FactText {
    pub id: Seq<char>,
    pub text: Seq<char>,
    pub check: Seq<char>,
    pub tags: Seq<Seq<char>>,
    pub ts: Seq<char>,
}

impl View for Fact {
    type V = FactText;

    open spec fn view(&self) -> FactText {
        FactText {
            id: self.id@,
            text: self.text@,
            check: self.check@,
            tags: texts(self.tags@),
            ts: self.ts@,
        }
    }
}

/// What a list of facts holds.
pub open spec fn views(facts: Seq<Fact>) -> Seq<FactText> {
    facts.map_values(|f: Fact| f@)
}

pub proof fn lemma_views_push(facts: Seq<Fact>, f: Fact)
    ensures
        views(facts.push(f)) == views(facts).push(f@),
{
    assert(views(facts.push(f)) =~= views(facts).push(f@));
}

/// The position of the first fact with this id.
pub open spec fn position_of(facts: Seq<FactText>, id: Seq<char>) -> Option<int>
    decreases facts.len(),
{
    if facts.len() == 0 {
        None
    } else {
        match position_of(facts.drop_last(), id) {
            Some(i) => Some(i),
            None => if facts.last().id == id {
                Some(facts.len() - 1)
            } else {
                None
            },
        }
    }
}

/// The first position is the one of a fact with the id before which no fact has it.
pub proof fn lemma_position(facts: Seq<FactText>, id: Seq<char>)
    ensures
        match position_of(facts, id) {
            Some(i) => {
                &&& 0 <= i < facts.len()
                &&& facts[i].id == id
                &&& forall|j: int| 0 <= j < i ==> (#[trigger] facts[j]).id != id
            },
            None => forall|j: int| 0 <= j < facts.len() ==> (#[trigger] facts[j]).id != id,
        },
    decreases facts.len(),
{
    if facts.len() > 0 {
        let before = facts.drop_last();
        lemma_position(before, id);
        assert forall|j: int| 0 <= j < before.len() implies before[j] == #[trigger] facts[j] by {}
    }
}

/// The position of the first fact with this id.
pub fn position(facts: &[Fact], id: &str) -> (at: Option<usize>)
    ensures
        match at {
            Some(i) => i < facts@.len() && position_of(views(facts@), id@) == Some(i as int),
            None => position_of(views(facts@), id@) is None,
        },
{
    for i in 0..facts.len()
        invariant
            position_of(views(facts@).take(i as int), id@) is None,
    {
        assert(views(facts@).take(i + 1).drop_last() =~= views(facts@).take(i as int));
        if same(&facts[i].id, id) {
            proof {
                lemma_position_stays(views(facts@), id@, i + 1);
            }
            return Some(i);
        }
    }
    assert(views(facts@).take(facts@.len() as int) =~= views(facts@));
    None
}

proof fn lemma_position_stays(facts: Seq<FactText>, id: Seq<char>, k: int)
    requires
        0 <= k <= facts.len(),
        position_of(facts.take(k), id) is Some,
    ensures
        position_of(facts, id) == position_of(facts.take(k), id),
    decreases facts.len() - k,
{
    if k == facts.len() {
        assert(facts.take(k) =~= facts);
    } else {
        assert(facts.take(k + 1).drop_last() =~= facts.take(k));
        lemma_position_stays(facts, id, k + 1);
    }
}

/// Whether a fact has neither text nor check.
pub open spec fn is_blank(f: FactText) -> bool {
    f.text.len() == 0 && f.check.len() == 0
}

/// Whether a fact carries the reserved tag `ref`.
pub open spec fn is_reference(f: FactText) -> bool {
    f.tags.contains("ref"@)
}

impl Fact {
    /// Whether this is a reference fact.
    pub fn is_ref(&self) -> (reference: bool)
        ensures
            reference == is_reference(self@),
    {
        contains_text(&self.tags, "ref")
    }

    /// The number of characters of the text.
    pub fn text_len(&self) -> (n: usize)
        ensures
            n == self@.text.len(),
    {
        char_count(&self.text)
    }

    /// A copy of this fact.
    pub fn copied(&self) -> (copy: Fact)
        ensures
            copy@ == self@,
    {
        Fact {
            id: self.id.clone(),
            text: self.text.clone(),
            check: self.check.clone(),
            tags: copy_texts(&self.tags),
            ts: self.ts.clone(),
        }
    }
}

/// Whether a text is within the limit.
pub open spec fn length_checked(text: Seq<char>, limit: nat) -> Result<(), Reason> {
    if text.len() <= limit {
        Ok(())
    } else {
        Err(Reason::TooLong { length: text.len(), limit })
    }
}

/// Refuses a text with more characters than the limit allows.
pub fn check_len(text: &str, limit: usize) -> (checked: Result<(), Refusal>)
    ensures
        outcome(checked) == length_checked(text@, limit as nat),
{
    let length = char_count(text);
    if length <= limit {
        Ok(())
    } else {
        Err(Refusal::TooLong { length, limit })
    }
}

// ---- tags ----

/// The tags without white space at their ends, without empty ones, each once, in the order in
/// which they first occur.
pub open spec fn cleaned(tags: Seq<Seq<char>>) -> Seq<Seq<char>>
    decreases tags.len(),
{
    if tags.len() == 0 {
        Seq::empty()
    } else {
        let before = cleaned(tags.drop_last());
        let tag = trimmed(tags.last());
        if tag.len() == 0 || before.contains(tag) {
            before
        } else {
            before.push(tag)
        }
    }
}

/// Normalises a list of tags.
pub fn clean_tags(tags: &[String]) -> (clean: Vec<String>)
    ensures
        texts(clean@) == cleaned(texts(tags@)),
{
    let mut clean: Vec<String> = Vec::new();
    for i in 0..tags.len()
        invariant
            texts(clean@) == cleaned(texts(tags@).take(i as int)),
    {
        assert(texts(tags@).take(i + 1).drop_last() =~= texts(tags@).take(i as int));
        let tag = trim(&tags[i]);
        if !tag.as_str().is_empty() && !contains_text(&clean, &tag) {
            proof {
                lemma_texts_push(clean@, tag);
            }
            clean.push(tag);
        }
    }
    assert(texts(tags@).take(tags@.len() as int) =~= texts(tags@));
    clean
}

/// Whether a list of tags is clean: without white space at the ends, without empty tags, each
/// tag once.
pub open spec fn is_clean(tags: Seq<Seq<char>>) -> bool {
    &&& tags.no_duplicates()
    &&& forall|i: int|
        0 <= i < tags.len() ==> (#[trigger] tags[i]).len() > 0 && trimmed(tags[i]) == tags[i]
}

proof fn lemma_cleaned_has(tags: Seq<Seq<char>>, tag: Seq<char>)
    ensures
        cleaned(tags).contains(tag) <==> tag.len() > 0 && exists|i: int|
            0 <= i < tags.len() && trimmed(#[trigger] tags[i]) == tag,
    decreases tags.len(),
{
    if tags.len() > 0 {
        let shorter = tags.drop_last();
        lemma_cleaned_has(shorter, tag);
        let before = cleaned(shorter);
        let last = trimmed(tags.last());
        assert(forall|i: int| 0 <= i < shorter.len() ==> shorter[i] == #[trigger] tags[i]);
        if cleaned(tags).contains(tag) {
            if before.contains(tag) {
                let i = choose|i: int|
                    0 <= i < shorter.len() && trimmed(#[trigger] shorter[i]) == tag;
                assert(trimmed(tags[i]) == tag);
            } else {
                assert(cleaned(tags) == before.push(last));
                let k = choose|k: int| 0 <= k < cleaned(tags).len() && cleaned(tags)[k] == tag;
                if k < before.len() {
                    assert(before[k] == tag);
                }
                assert(trimmed(tags[tags.len() - 1]) == tag);
            }
        }
        if tag.len() > 0 && exists|i: int| 0 <= i < tags.len() && trimmed(#[trigger] tags[i]) == tag {
            let i = choose|i: int| 0 <= i < tags.len() && trimmed(#[trigger] tags[i]) == tag;
            if before.contains(tag) {
                let k = choose|k: int| 0 <= k < before.len() && before[k] == tag;
                assert(cleaned(tags)[k] == tag);
            } else {
                if i < shorter.len() {
                    assert(trimmed(shorter[i]) == tag);
                }
                assert(last == tag);
                assert(cleaned(tags)[before.len() as int] == tag);
            }
        }
    }
}

/// Whether a tag stands at `i` in a list for the first time, white space at its ends aside.
pub open spec fn is_first_at(tags: Seq<Seq<char>>, tag: Seq<char>, i: int) -> bool {
    &&& 0 <= i < tags.len()
    &&& trimmed(tags[i]) == tag
    &&& forall|j: int| 0 <= j < i ==> trimmed(#[trigger] tags[j]) != tag
}

proof fn lemma_first_exists(tags: Seq<Seq<char>>, tag: Seq<char>, i: int)
    requires
        0 <= i < tags.len(),
        trimmed(tags[i]) == tag,
    ensures
        exists|a: int| a <= i && #[trigger] is_first_at(tags, tag, a),
    decreases i,
{
    if exists|j: int| 0 <= j < i && trimmed(#[trigger] tags[j]) == tag {
        let j = choose|j: int| 0 <= j < i && trimmed(#[trigger] tags[j]) == tag;
        lemma_first_exists(tags, tag, j);
    } else {
        assert(is_first_at(tags, tag, i));
    }
}

/// Cleaned tags stand in the order in which they first occur.
pub proof fn law_clean_tags_in_order(tags: Seq<Seq<char>>, i: int, j: int)
    requires
        0 <= i < j < cleaned(tags).len(),
    ensures
        exists|a: int, b: int|
            #![trigger is_first_at(tags, cleaned(tags)[i], a), is_first_at(tags, cleaned(tags)[j], b)]
            a < b && is_first_at(tags, cleaned(tags)[i], a) && is_first_at(
                tags,
                cleaned(tags)[j],
                b,
            ),
    decreases tags.len(),
{
    let shorter = tags.drop_last();
    let before = cleaned(shorter);
    let all = cleaned(tags);
    let last = tags.len() - 1;
    assert(forall|k: int| 0 <= k < shorter.len() ==> shorter[k] == #[trigger] tags[k]);
    if j < before.len() {
        law_clean_tags_in_order(shorter, i, j);
        let (a, b) = choose|a: int, b: int|
            #![trigger is_first_at(shorter, before[i], a), is_first_at(shorter, before[j], b)]
            a < b && is_first_at(shorter, before[i], a) && is_first_at(shorter, before[j], b);
        assert(all[i] == before[i] && all[j] == before[j]);
        assert(is_first_at(tags, all[i], a));
        assert(is_first_at(tags, all[j], b));
    } else {
        assert(all == before.push(trimmed(tags.last())));
        assert(all[i] == before[i]);
        lemma_cleaned_has(shorter, before[i]);
        assert(before.contains(before[i]));
        let k = choose|k: int| 0 <= k < shorter.len() && trimmed(#[trigger] shorter[k]) == before[i];
        lemma_first_exists(tags, before[i], k);
        let a = choose|a: int| a <= k && #[trigger] is_first_at(tags, before[i], a);
        lemma_cleaned_has(shorter, all[j]);
        assert(is_first_at(tags, all[j], last)) by {
            assert forall|m: int| 0 <= m < last implies trimmed(#[trigger] tags[m]) != all[j] by {
                assert(shorter[m] == tags[m]);
            }
        }
        assert(is_first_at(tags, all[i], a));
    }
}

/// Cleaning gives a clean list with the tags that were there, and leaves a clean list as it is.
pub proof fn law_clean_tags(tags: Seq<Seq<char>>)
    ensures
        is_clean(cleaned(tags)),
        forall|tag: Seq<char>| #[trigger]
            cleaned(tags).contains(tag) <==> tag.len() > 0 && exists|i: int|
                0 <= i < tags.len() && trimmed(#[trigger] tags[i]) == tag,
        is_clean(tags) <==> cleaned(tags) == tags,
{
    lemma_cleaned_clean(tags);
    assert forall|tag: Seq<char>| #[trigger]
        cleaned(tags).contains(tag) <==> tag.len() > 0 && exists|i: int|
            0 <= i < tags.len() && trimmed(#[trigger] tags[i]) == tag by {
        lemma_cleaned_has(tags, tag);
    }
    if is_clean(tags) {
        lemma_clean_stays(tags);
    }
}

proof fn lemma_cleaned_clean(tags: Seq<Seq<char>>)
    ensures
        is_clean(cleaned(tags)),
    decreases tags.len(),
{
    if tags.len() > 0 {
        lemma_cleaned_clean(tags.drop_last());
        law_trimmed(tags.last());
        let before = cleaned(tags.drop_last());
        let after = cleaned(tags);
        let tag = trimmed(tags.last());
        if after.len() > before.len() {
            assert forall|i: int, j: int|
                0 <= i < after.len() && 0 <= j < after.len() && i != j implies after[i]
                != after[j] by {
                if i == before.len() {
                    assert(before.contains(before[j]));
                } else if j == before.len() {
                    assert(before.contains(before[i]));
                }
            }
        }
    }
}

proof fn lemma_clean_stays(tags: Seq<Seq<char>>)
    requires
        is_clean(tags),
    ensures
        cleaned(tags) == tags,
    decreases tags.len(),
{
    if tags.len() > 0 {
        let shorter = tags.drop_last();
        lemma_clean_stays(shorter);
        let last = tags[tags.len() - 1];
        if shorter.contains(last) {
            let k = choose|k: int| 0 <= k < shorter.len() && shorter[k] == last;
            assert(tags[k] == tags[tags.len() - 1]);
        }
        assert(cleaned(tags) =~= tags);
    }
}

// ---- stored facts ----

/// Whether the fields of a fact are in order: text and check on one line, and the tags clean.
pub open spec fn is_tidy(f: FactText) -> bool {
    &&& is_one_line(f.text)
    &&& is_one_line(f.check)
    &&& is_clean(f.tags)
}

/// Whether a fact is as the commands store it: its fields in order, and text and check not both
/// empty.
pub open spec fn is_sound(f: FactText) -> bool {
    is_tidy(f) && !is_blank(f)
}

pub open spec fn all_sound(facts: Seq<FactText>) -> bool {
    forall|i: int| 0 <= i < facts.len() ==> is_sound(#[trigger] facts[i])
}

/// Whether every fact has an id of its own.
pub open spec fn ids_differ(facts: Seq<FactText>) -> bool {
    forall|i: int, j: int|
        0 <= i < facts.len() && 0 <= j < facts.len() && i != j ==> (#[trigger] facts[i]).id != (
        #[trigger] facts[j]).id
}

// ---- lines ----

/// The text of a fact, its check, or both.
pub open spec fn body_of(f: FactText) -> Seq<char> {
    if f.check.len() == 0 {
        f.text
    } else if f.text.len() == 0 {
        "check: "@ + f.check
    } else {
        f.text + " | check: "@ + f.check
    }
}

/// A fact as the session shows it.
pub open spec fn bare_line(f: FactText) -> Seq<char> {
    "["@ + f.id + "] "@ + body_of(f)
}

pub open spec fn tag_field(tags: Seq<Seq<char>>) -> Seq<char> {
    if tags.len() == 0 {
        Seq::empty()
    } else {
        "  #"@ + joined(tags, " #"@)
    }
}

/// A fact with its tags and its date.
pub open spec fn full_line(f: FactText) -> Seq<char> {
    bare_line(f) + tag_field(f.tags) + "  ("@ + f.ts + ")"@
}

/// The line of a fact without tags and date.
pub fn render_bare(f: &Fact) -> (line: String)
    ensures
        line@ == bare_line(f@),
{
    let mut line = "[".to_owned();
    line.append(&f.id);
    line.append("] ");
    if f.check.as_str().is_empty() {
        line.append(&f.text);
    } else if f.text.as_str().is_empty() {
        line.append("check: ");
        line.append(&f.check);
        assert(line@ =~= bare_line(f@));
    } else {
        line.append(&f.text);
        line.append(" | check: ");
        line.append(&f.check);
        assert(line@ =~= bare_line(f@));
    }
    line
}

/// The line of a fact with tags and date.
pub fn render(f: &Fact) -> (line: String)
    ensures
        line@ == full_line(f@),
{
    let mut line = render_bare(f);
    if f.tags.len() > 0 {
        line.append("  #");
        let tags = join(&f.tags, " #");
        line.append(&tags);
    }
    assert(line@ =~= bare_line(f@) + tag_field(f@.tags));
    line.append("  (");
    line.append(&f.ts);
    line.append(")");
    line
}

/// The tag under which a fact is grouped: its first one but `ref`.
pub open spec fn group_name(f: FactText) -> Seq<char> {
    let named = f.tags.filter(not_ref());
    if named.len() > 0 {
        named[0]
    } else if is_reference(f) {
        Seq::empty()
    } else {
        "(untagged)"@
    }
}

pub open spec fn not_ref() -> spec_fn(Seq<char>) -> bool {
    |t: Seq<char>| t != "ref"@
}

/// The tag under which a fact is grouped: its first one but `ref`; for a fact without such a
/// tag, nothing if it is a reference fact and `(untagged)` if it is not.
pub fn group_tag(f: &Fact) -> (tag: String)
    ensures
        tag@ == group_name(f@),
{
    for i in 0..f.tags.len()
        invariant
            f@.tags.take(i as int).filter(not_ref()).len() == 0,
    {
        let ghost t = f@.tags.take(i + 1);
        proof {
            reveal(Seq::filter);
        }
        assert(t.drop_last() =~= f@.tags.take(i as int));
        if !same(&f.tags[i], "ref") {
            let tag = f.tags[i].clone();
            assert(t.filter(not_ref()) =~= seq![tag@]);
            proof {
                let rest = f@.tags.skip(i + 1);
                assert(t + rest =~= f@.tags);
                Seq::filter_distributes_over_add(t, rest, not_ref());
            }
            return tag;
        }
    }
    assert(f@.tags.take(f@.tags.len() as int) =~= f@.tags);
    if f.is_ref() {
        String::new()
    } else {
        "(untagged)".to_owned()
    }
}

} // verus!
