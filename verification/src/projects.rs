//! The registry of projects, and the place of a project.

use vstd::prelude::*;

use crate::fact::{views, Fact, FactText};
use crate::number::{decimal, push_number};
use crate::order::{
    comes_before, lemma_before_irreflexive, lemma_before_transitive, text_before,
};
use crate::search::opt_text;
use crate::store::{entry_lines, filled_lines, save, saved};
use crate::text::{extend_texts, pieces, push_text, texts, Separator};

verus! {

// ---- the registry ----

/// The stores that the registry names.
pub fn load_registry(text: &str) -> (stores: Vec<String>)
    ensures
        texts(stores@) == filled_lines(text@),
{
    entry_lines(text)
}

/// The contents of a registry that names the given stores.
pub fn save_registry(stores: &[String]) -> (text: String)
    ensures
        text@ == saved(texts(stores@)),
{
    save(stores)
}

/// Whether a path means the same on every kind of system: it has no backslash and no colon, and
/// does not start with two slashes.
pub open spec fn is_portable(path: Seq<char>) -> bool {
    &&& forall|i: int| 0 <= i < path.len() ==> (#[trigger] path[i]) != '\\' && path[i] != ':'
    &&& !(path.len() >= 2 && path[0] == '/' && path[1] == '/')
}

pub open spec fn is_step() -> spec_fn(Seq<char>) -> bool {
    |s: Seq<char>| s.len() > 0 && s != "."@
}

/// The steps of a path: what stands between its slashes, but for nothing and single dots.
pub open spec fn steps_of(path: Seq<char>) -> Seq<Seq<char>> {
    pieces(path, Separator::Is('/')).filter(is_step())
}

/// Whether a path starts at the root.
pub open spec fn is_rooted(path: Seq<char>) -> bool {
    path.len() > 0 && path[0] == '/'
}

/// Whether a path starts with a single dot.
pub open spec fn starts_here(path: Seq<char>) -> bool {
    pieces(path, Separator::Is('/'))[0] == "."@
}

/// Whether two portable texts name one path: they start alike and have the same steps.
pub open spec fn names_one_path(a: Seq<char>, b: Seq<char>) -> bool {
    is_rooted(a) == is_rooted(b) && starts_here(a) == starts_here(b) && steps_of(a) == steps_of(b)
}

/// Whether two texts name one path on every kind of system.
pub open spec fn must_agree(a: Seq<char>, b: Seq<char>) -> bool {
    a == b || (is_portable(a) && is_portable(b) && names_one_path(a, b))
}

/// Whether two texts may name one path, on some kind of system.
pub open spec fn may_agree(a: Seq<char>, b: Seq<char>) -> bool {
    is_portable(a) && is_portable(b) ==> names_one_path(a, b)
}

/// `==` on two values of `std::path::Path` tells whether two paths have the same components.
/// Repeated slashes, a slash at the end, and single dots but for one at the start are left out of
/// account, and nothing else is. What a backslash, a colon or two slashes at the start mean depends
/// on the system: of texts with these it is claimed only that a text names the path that it names.
#[verifier::external_body]
fn same_path(a: &str, b: &str) -> (same: bool)
    ensures
        must_agree(a@, b@) ==> same,
        same ==> may_agree(a@, b@),
{
    std::path::Path::new(a) == std::path::Path::new(b)
}

/// The stores that the registry names once the given store is in it; nothing if it is already.
/// Texts are compared as paths.
pub fn register(known: Vec<String>, store: String) -> (stores: Option<Vec<String>>)
    ensures
        match stores {
            None => exists|i: int|
                0 <= i < known@.len() && may_agree(#[trigger] texts(known@)[i], store@),
            Some(list) => {
                &&& texts(list@) == texts(known@).push(store@)
                &&& forall|i: int|
                    0 <= i < known@.len() ==> !must_agree(#[trigger] texts(known@)[i], store@)
            },
        },
{
    let mut is_known = false;
    for i in 0..known.len()
        invariant
            is_known ==> exists|k: int|
                0 <= k < known@.len() && may_agree(#[trigger] texts(known@)[k], store@),
            !is_known ==> forall|k: int|
                0 <= k < i ==> !must_agree(#[trigger] texts(known@)[k], store@),
    {
        assert(texts(known@)[i as int] == known@[i as int]@);
        if same_path(&known[i], &store) {
            is_known = true;
        }
    }
    register_unless(known, store, is_known)
}

/// The stores that the registry names once the given store is in it, by whether it is there
/// already; nothing if it is.
pub fn register_unless(known: Vec<String>, store: String, is_known: bool) -> (stores: Option<
    Vec<String>,
>)
    ensures
        match stores {
            None => is_known,
            Some(list) => !is_known && texts(list@) == texts(known@).push(store@),
        },
{
    if is_known {
        None
    } else {
        let mut stores = known;
        push_text(&mut stores, store);
        Some(stores)
    }
}

/// Whether no two entries of a registry name one path.
pub open spec fn paths_differ(stores: Seq<Seq<char>>) -> bool {
    forall|i: int, j: int|
        0 <= i < stores.len() && 0 <= j < stores.len() && i != j ==> !must_agree(
            #[trigger] stores[i],
            #[trigger] stores[j],
        )
}

/// A store that is registered only where no entry names its path keeps every path in the registry
/// once.
pub proof fn law_stores_once(known: Seq<Seq<char>>, store: Seq<char>)
    requires
        paths_differ(known),
        forall|i: int| 0 <= i < known.len() ==> !must_agree(#[trigger] known[i], store),
    ensures
        paths_differ(known.push(store)),
{
    let more = known.push(store);
    assert forall|i: int, j: int|
        0 <= i < more.len() && 0 <= j < more.len() && i != j implies !must_agree(
        #[trigger] more[i],
        #[trigger] more[j],
    ) by {
        if i == known.len() {
            assert(!must_agree(known[j], store));
        } else if j == known.len() {
            assert(!must_agree(known[i], store));
        } else {
            assert(!must_agree(known[i], known[j]));
        }
    }
}

/// In a registry of portable paths a store is known exactly if an entry names its path.
pub proof fn law_portable_store_known(known: Seq<Seq<char>>, store: Seq<char>, i: int)
    requires
        0 <= i < known.len(),
        is_portable(known[i]),
        is_portable(store),
    ensures
        may_agree(known[i], store) <==> must_agree(known[i], store),
        must_agree(known[i], store) <==> names_one_path(known[i], store),
{
}

// ---- the listing ----

/// What was found where the registry names a store.
#[derive(Debug)]
pub enum Entry {
    /// A store; its facts, unless they cannot be read.
    Alive { store: String, root: String, facts: Option<Vec<Fact>> },
    /// Nothing.
    Gone { store: String },
}

#[verifier::ext_equal]
pub enum EntryText {
    Alive { store: Seq<char>, root: Seq<char>, facts: Option<Seq<FactText>> },
    Gone { store: Seq<char> },
}

impl View for Entry {
    type V = EntryText;

    open spec fn view(&self) -> EntryText {
        match *self {
            Entry::Alive { store, root, facts } => EntryText::Alive {
                store: store@,
                root: root@,
                facts: match facts {
                    Some(list) => Some(views(list@)),
                    None => None,
                },
            },
            Entry::Gone { store } => EntryText::Gone { store: store@ },
        }
    }
}

pub open spec fn entry_texts(entries: Seq<Entry>) -> Seq<EntryText> {
    entries.map_values(|e: Entry| e@)
}

/// The latest of the dates of the facts.
pub open spec fn last_date(facts: Seq<FactText>) -> Option<Seq<char>>
    decreases facts.len(),
{
    if facts.len() == 0 {
        None
    } else {
        match last_date(facts.drop_last()) {
            Some(date) if !text_before(date, facts.last().ts) => Some(date),
            _ => Some(facts.last().ts),
        }
    }
}

/// The line about a project.
pub open spec fn project_line(root: Seq<char>, facts: Seq<FactText>) -> Seq<char> {
    root + "  "@ + decimal(facts.len()) + " facts  last "@ + match last_date(facts) {
        Some(date) => date,
        None => "-"@,
    }
}

/// The lines about the projects up to the first one whose facts cannot be read, and the store of
/// that one.
pub open spec fn project_lines(entries: Seq<EntryText>) -> (Seq<Seq<char>>, Option<Seq<char>>)
    decreases entries.len(),
{
    if entries.len() == 0 {
        (Seq::empty(), None)
    } else {
        let (before, unreadable) = project_lines(entries.drop_last());
        match (unreadable, entries.last()) {
            (Some(store), _) => (before, Some(store)),
            (None, EntryText::Gone { .. }) => (before, None),
            (None, EntryText::Alive { store, root, facts: None }) => (before, Some(store)),
            (None, EntryText::Alive { store, root, facts: Some(facts) }) => (
                before.push(project_line(root, facts)),
                None,
            ),
        }
    }
}

/// The stores that are there.
pub open spec fn alive_stores(entries: Seq<EntryText>) -> Seq<Seq<char>>
    decreases entries.len(),
{
    if entries.len() == 0 {
        Seq::empty()
    } else {
        let before = alive_stores(entries.drop_last());
        match entries.last() {
            EntryText::Alive { store, .. } => before.push(store),
            EntryText::Gone { .. } => before,
        }
    }
}

/// The lines about the stores that are gone.
pub open spec fn gone_lines(entries: Seq<EntryText>) -> Seq<Seq<char>>
    decreases entries.len(),
{
    if entries.len() == 0 {
        Seq::empty()
    } else {
        let before = gone_lines(entries.drop_last());
        match entries.last() {
            EntryText::Alive { .. } => before,
            EntryText::Gone { store } => before.push(
                "gone: "@ + store + " (removed from registry)"@,
            ),
        }
    }
}

/// What a listing of the projects shows, the first store that could not be read, and what the
/// registry is left with if that changes.
#[verifier::ext_equal]
pub struct ListingText {
    pub lines: Seq<Seq<char>>,
    pub unreadable: Option<Seq<char>>,
    pub registry: Option<Seq<Seq<char>>>,
}

/// The listing of the projects. A store that cannot be read ends it, with the registry as it is.
pub open spec fn projects_listed(entries: Seq<EntryText>) -> ListingText {
    let (list, unreadable) = project_lines(entries);
    let gone = gone_lines(entries);
    if unreadable is Some {
        ListingText { lines: list, unreadable, registry: None }
    } else if entries.len() == 0 {
        ListingText {
            lines: seq![
                "no projects registered yet; the registry fills as factsheet runs in each project"@,
            ],
            unreadable: None,
            registry: None,
        }
    } else {
        ListingText {
            lines: list + gone,
            unreadable: None,
            registry: if gone.len() == 0 {
                None
            } else {
                Some(alive_stores(entries))
            },
        }
    }
}

/// A listing of the projects.
#[derive(Debug)]
pub struct Listing {
    pub lines: Vec<String>,
    /// The first store whose facts cannot be read.
    pub unreadable: Option<String>,
    /// The stores that the registry is left with, if that changes.
    pub registry: Option<Vec<String>>,
}

impl View for Listing {
    type V = ListingText;

    open spec fn view(&self) -> ListingText {
        ListingText {
            lines: texts(self.lines@),
            unreadable: opt_text(self.unreadable),
            registry: match self.registry {
                Some(list) => Some(texts(list@)),
                None => None,
            },
        }
    }
}

fn latest_date(facts: &[Fact]) -> (date: Option<String>)
    ensures
        opt_text(date) == last_date(views(facts@)),
{
    let ghost all = views(facts@);
    let mut date: Option<String> = None;
    for i in 0..facts.len()
        invariant
            all == views(facts@),
            opt_text(date) == last_date(all.take(i as int)),
    {
        assert(all.take(i + 1).drop_last() =~= all.take(i as int));
        let later = match &date {
            Some(d) => comes_before(d, &facts[i].ts),
            None => true,
        };
        if later {
            date = Some(facts[i].ts.clone());
        }
    }
    assert(all.take(all.len() as int) =~= all);
    date
}

fn line_of_project(root: &str, facts: &[Fact]) -> (line: String)
    ensures
        line@ == project_line(root@, views(facts@)),
{
    let mut line = root.to_owned();
    line.append("  ");
    push_number(&mut line, facts.len() as u128);
    line.append(" facts  last ");
    match latest_date(facts) {
        Some(date) => {
            line.append(&date);
        },
        None => {
            line.append("-");
        },
    }
    line
}

proof fn lemma_stays_unreadable(entries: Seq<EntryText>, k: int)
    requires
        0 <= k <= entries.len(),
        project_lines(entries.take(k)).1 is Some,
    ensures
        project_lines(entries) == project_lines(entries.take(k)),
    decreases entries.len() - k,
{
    if k == entries.len() {
        assert(entries.take(k) =~= entries);
    } else {
        assert(entries.take(k + 1).drop_last() =~= entries.take(k));
        lemma_stays_unreadable(entries, k + 1);
    }
}

/// Lists the projects of the registry. Stores that are gone leave the registry.
pub fn projects(entries: &[Entry]) -> (listing: Listing)
    ensures
        listing@ == projects_listed(entry_texts(entries@)),
{
    let ghost all = entry_texts(entries@);
    let mut list: Vec<String> = Vec::new();
    let mut gone: Vec<String> = Vec::new();
    let mut alive: Vec<String> = Vec::new();
    assert(texts(list@) =~= Seq::<Seq<char>>::empty());
    for i in 0..entries.len()
        invariant
            all == entry_texts(entries@),
            project_lines(all.take(i as int)) == (texts(list@), None::<Seq<char>>),
            texts(gone@) == gone_lines(all.take(i as int)),
            texts(alive@) == alive_stores(all.take(i as int)),
    {
        assert(all.take(i + 1).drop_last() =~= all.take(i as int));
        assert(all.take(i + 1).last() == entries@[i as int]@);
        match &entries[i] {
            Entry::Gone { store } => {
                let mut line = "gone: ".to_owned();
                line.append(store);
                line.append(" (removed from registry)");
                push_text(&mut gone, line);
            },
            Entry::Alive { store, root, facts } => {
                push_text(&mut alive, store.clone());
                match facts {
                    None => {
                        proof {
                            lemma_stays_unreadable(all, i + 1);
                        }
                        return Listing {
                            lines: list,
                            unreadable: Some(store.clone()),
                            registry: None,
                        };
                    },
                    Some(facts) => {
                        push_text(&mut list, line_of_project(root, facts));
                    },
                }
            },
        }
    }
    assert(all.take(all.len() as int) =~= all);
    if entries.len() == 0 {
        push_text(
            &mut list,
            "no projects registered yet; the registry fills as factsheet runs in each project".to_owned(),
        );
        assert(texts(list@) =~= projects_listed(all).lines);
        return Listing { lines: list, unreadable: None, registry: None };
    }
    extend_texts(&mut list, &gone);
    if gone.len() == 0 {
        Listing { lines: list, unreadable: None, registry: None }
    } else {
        Listing { lines: list, unreadable: None, registry: Some(alive) }
    }
}

// ---- the place of a project ----

/// What marks a directory as a project: a store, or a repository.
#[derive(Debug)]
pub struct Marks {
    pub has_store: bool,
    pub has_git: bool,
}

pub open spec fn is_marked(m: Marks) -> bool {
    m.has_store || m.has_git
}

/// Whether `i` is the root, of a directory and the directories above it: the nearest that is
/// marked, or the directory itself if none is.
pub open spec fn is_root(dirs: Seq<Marks>, i: int) -> bool {
    ||| {
        &&& 0 <= i < dirs.len()
        &&& is_marked(dirs[i])
        &&& forall|j: int| 0 <= j < i ==> !is_marked(#[trigger] dirs[j])
    }
    ||| {
        &&& i == 0
        &&& forall|j: int| 0 <= j < dirs.len() ==> !is_marked(#[trigger] dirs[j])
    }
}

/// Finds the root of the project: `dirs` describes a directory and then those above it.
pub fn find_root(dirs: &[Marks]) -> (root: usize)
    ensures
        is_root(dirs@, root as int),
{
    for i in 0..dirs.len()
        invariant
            forall|j: int| 0 <= j < i ==> !is_marked(#[trigger] dirs@[j]),
    {
        if dirs[i].has_store || dirs[i].has_git {
            return i;
        }
    }
    0
}

// ---- what the listing leaves ----

pub open spec fn is_alive() -> spec_fn(EntryText) -> bool {
    |e: EntryText| e is Alive
}

/// A listing leaves the registry with the stores that are there. Listed again with these alone,
/// nothing is gone and the registry stays as it is.
pub proof fn law_registry_pruned_once(entries: Seq<EntryText>)
    ensures
        ({
            let rest = entries.filter(is_alive());
            &&& alive_stores(rest) == alive_stores(entries)
            &&& project_lines(rest) == project_lines(entries)
            &&& gone_lines(rest).len() == 0
            &&& projects_listed(rest).registry is None
        }),
    decreases entries.len(),
{
    reveal(Seq::filter);
    let rest = entries.filter(is_alive());
    if entries.len() > 0 {
        let shorter = entries.drop_last();
        law_registry_pruned_once(shorter);
        if entries.last() is Alive {
            assert(rest.drop_last() =~= shorter.filter(is_alive()));
        }
    }
}

/// The date that is shown for a project is the date of one of its facts, and no fact has a later
/// one.
pub proof fn law_last_date(facts: Seq<FactText>)
    ensures
        match last_date(facts) {
            None => facts.len() == 0,
            Some(date) => {
                &&& exists|i: int| 0 <= i < facts.len() && (#[trigger] facts[i]).ts == date
                &&& forall|i: int|
                    0 <= i < facts.len() ==> !text_before(date, (#[trigger] facts[i]).ts)
            },
        },
    decreases facts.len(),
{
    if facts.len() > 0 {
        let shorter = facts.drop_last();
        let last = facts[facts.len() - 1];
        law_last_date(shorter);
        assert(forall|i: int| 0 <= i < shorter.len() ==> shorter[i] == #[trigger] facts[i]);
        let date = last_date(facts)->Some_0;
        lemma_before_irreflexive(last.ts);
        match last_date(shorter) {
            None => {
                assert(facts[facts.len() - 1].ts == date);
            },
            Some(before) => {
                if text_before(before, last.ts) {
                    assert(facts[facts.len() - 1].ts == date);
                    assert forall|i: int| 0 <= i < facts.len() implies !text_before(
                        date,
                        (#[trigger] facts[i]).ts,
                    ) by {
                        if i < shorter.len() && text_before(date, facts[i].ts) {
                            lemma_before_transitive(before, date, facts[i].ts);
                            assert(!text_before(before, shorter[i].ts));
                        }
                    }
                } else {
                    let k = choose|k: int| 0 <= k < shorter.len() && (#[trigger] shorter[k]).ts
                        == before;
                    assert(facts[k].ts == date);
                }
            },
        }
    }
}

/// The root is the first directory, going up, that has a store or a repository, and where there is
/// none the directory in which the search started. There is one root.
pub proof fn law_root(dirs: Seq<Marks>, i: int, k: int)
    requires
        is_root(dirs, i),
    ensures
        0 <= k < dirs.len() && (dirs[k].has_store || dirs[k].has_git) && (forall|j: int|
            0 <= j < k ==> !(#[trigger] dirs[j]).has_store && !dirs[j].has_git) ==> i == k,
        (forall|j: int| 0 <= j < dirs.len() ==> !(#[trigger] dirs[j]).has_store && !dirs[j].has_git)
            ==> i == 0,
{
    if 0 <= k < dirs.len() && is_marked(dirs[k]) && i < k && 0 <= i {
        assert(!is_marked(dirs[k]) || is_marked(dirs[i]));
    }
}

} // verus!
