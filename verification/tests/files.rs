use factsheet::editor::choose_editor;
use factsheet::fact::{render, Fact};
use factsheet::output::{say, write_output, WriteError};
use factsheet::projects::{
    find_root, load_registry, projects, register, register_unless, save_registry, Entry, Marks,
};
use factsheet::store::{add_git_exclude, append, entry_lines, load, parse_fact, save};
use std::io::{self, Write};

fn list(words: &[&str]) -> Vec<String> {
    words.iter().map(|w| (*w).to_owned()).collect()
}

fn fact(id: &str, ts: &str, tags: &[&str]) -> Fact {
    Fact {
        id: id.to_owned(),
        text: "text".to_owned(),
        check: String::new(),
        tags: list(tags),
        ts: ts.to_owned(),
    }
}

struct FailedOutput(io::ErrorKind);

impl Write for FailedOutput {
    fn write(&mut self, _: &[u8]) -> io::Result<usize> {
        Err(self.0.into())
    }

    fn flush(&mut self) -> io::Result<()> {
        Ok(())
    }
}

fn write_to(writer: &mut impl Write, bytes: &[u8]) -> io::Result<()> {
    write_output(writer.write_all(bytes).map_err(|e| match e.kind() {
        io::ErrorKind::BrokenPipe => WriteError::BrokenPipe,
        _ => WriteError::Other(e),
    }))
}

#[test]
fn ignores_only_broken_pipe_errors() {
    assert!(write_to(&mut FailedOutput(io::ErrorKind::BrokenPipe), b"text").is_ok());
    let error = write_to(&mut FailedOutput(io::ErrorKind::Other), b"text")
        .expect_err("non-pipe output failures must propagate");
    assert_eq!(error.kind(), io::ErrorKind::Other);
}

#[test]
fn lines_for_the_user_are_ended() {
    assert_eq!(say("dropped abc"), "dropped abc\n");
    let mut out: Vec<u8> = Vec::new();
    assert!(write_to(&mut out, say("x").as_bytes()).is_ok());
    assert_eq!(out, b"x\n");
}

#[test]
fn entries_are_the_lines_that_are_not_blank() {
    assert_eq!(entry_lines("a\r\n\n  \n b\nc"), ["a", " b", "c"]);
    assert!(entry_lines("").is_empty());
}

#[test]
fn saved_lines_return() {
    let lines = list(&["{\"id\":\"a\"}", " x ", "{}"]);
    let text = save(&lines);
    assert_eq!(text, "{\"id\":\"a\"}\n x \n{}\n");
    assert_eq!(entry_lines(&text), lines);
    assert_eq!(save(&[]), "");
}

#[test]
fn separates_new_facts_from_an_unfinished_last_line() {
    let mut text = String::from("{\"id\":");
    text.push_str(&append(text.as_bytes().last().copied(), "{\"id\":\"new\"}"));
    assert_eq!(text, "{\"id\":\n{\"id\":\"new\"}\n");
    assert_eq!(entry_lines(&text), ["{\"id\":", "{\"id\":\"new\"}"]);
    text.push_str(&append(text.as_bytes().last().copied(), "{}"));
    assert_eq!(entry_lines(&text).len(), 3);
    assert_eq!(append(None, "{}"), "{}\n");
}

#[test]
fn corrupt_lines_hide_nothing() {
    let decoded = vec![
        None,
        Some(fact("a", "2026-01-01", &["deploy", "deploy", " x "])),
        None,
        Some(fact("b", "2026-01-02", &[])),
    ];
    let facts = load(decoded);
    let shown: Vec<String> = facts.iter().map(render).collect();
    assert_eq!(shown, ["[a] text  #deploy #x  (2026-01-01)", "[b] text  (2026-01-02)"]);
    assert!(parse_fact(None).is_none());
}

#[test]
fn the_store_is_excluded_once() {
    let first = add_git_exclude("").unwrap();
    assert_eq!(first, "/.factsheet/\n");
    assert_eq!(add_git_exclude(&first), None);
    let second = add_git_exclude("# comment\n*.log").unwrap();
    assert_eq!(second, "# comment\n*.log\n/.factsheet/\n");
    assert_eq!(add_git_exclude(&second), None);
    assert_eq!(add_git_exclude("a\n  /.factsheet/\t\n"), None);
    assert_eq!(add_git_exclude("/.factsheet\n").unwrap(), "/.factsheet\n/.factsheet/\n");
}

#[test]
fn the_registry_keeps_every_store_once() {
    let known = load_registry("/a/.factsheet/facts.jsonl\n\n/b/.factsheet/facts.jsonl\n");
    assert_eq!(known.len(), 2);
    assert!(register(known.clone(), known[0].clone()).is_none());
    let more = register(known, "/c/.factsheet/facts.jsonl".to_owned()).unwrap();
    assert_eq!(
        save_registry(&more),
        "/a/.factsheet/facts.jsonl\n/b/.factsheet/facts.jsonl\n/c/.factsheet/facts.jsonl\n"
    );
    assert_eq!(load_registry(&save_registry(&more)), more);
}

#[test]
fn stores_are_compared_as_paths() {
    let known = || list(&["/a/b/facts.jsonl", "/c/facts.jsonl"]);
    for same in ["/a/b/facts.jsonl", "/a//b/facts.jsonl", "/a/./b/facts.jsonl", "/c/facts.jsonl/."] {
        assert!(register(known(), same.to_owned()).is_none());
    }
    for other in ["a/b/facts.jsonl", "/a/b/Facts.jsonl", "/a/c/../b/facts.jsonl", "/a/b"] {
        let stores = register(known(), other.to_owned()).unwrap();
        assert_eq!(stores, list(&["/a/b/facts.jsonl", "/c/facts.jsonl", other]));
    }
    assert!(register(list(&["./a"]), "a".to_owned()).is_some());
    assert!(register(list(&["./a"]), ".//./a/".to_owned()).is_none());
    assert!(register(list(&[""]), ".".to_owned()).is_some());
    assert!(register(list(&["x:y\\z"]), "x:y\\z".to_owned()).is_none());
    assert!(register_unless(known(), "/x".to_owned(), true).is_none());
    assert_eq!(register_unless(vec![], "/x".to_owned(), false).unwrap(), ["/x"]);
}

fn alive(root: &str, facts: Option<Vec<Fact>>) -> Entry {
    Entry::Alive { store: format!("{root}/.factsheet/facts.jsonl"), root: root.to_owned(), facts }
}

fn gone(store: &str) -> Entry {
    Entry::Gone { store: store.to_owned() }
}

#[test]
fn projects_are_listed_and_pruned() {
    let facts = vec![
        fact("a", "2026-01-01", &[]),
        fact("b", "2026-09-04", &[]),
        fact("c", "2026-05-05", &[]),
    ];
    let listing = projects(&[gone("/x/facts"), alive("/a", Some(facts)), alive("/b", Some(vec![]))]);
    assert_eq!(
        listing.lines,
        [
            "/a  3 facts  last 2026-09-04",
            "/b  0 facts  last -",
            "gone: /x/facts (removed from registry)",
        ]
    );
    assert!(listing.unreadable.is_none());
    assert_eq!(
        listing.registry.unwrap(),
        ["/a/.factsheet/facts.jsonl", "/b/.factsheet/facts.jsonl"]
    );
}

#[test]
fn a_pruned_registry_stays() {
    let entries = [alive("/a", Some(vec![])), gone("/x/facts")];
    let first = projects(&entries);
    assert_eq!(first.registry.unwrap(), ["/a/.factsheet/facts.jsonl"]);
    let second = projects(&entries[..1]);
    assert!(second.registry.is_none());
    assert_eq!(second.lines, first.lines[..1]);
}

#[test]
fn a_registry_without_gaps_stays() {
    let listing = projects(&[alive("/a", Some(vec![fact("a", "x", &[])]))]);
    assert_eq!(listing.lines, ["/a  1 facts  last x"]);
    assert!(listing.registry.is_none());
    let listing = projects(&[]);
    assert_eq!(
        listing.lines,
        ["no projects registered yet; the registry fills as factsheet runs in each project"]
    );
    assert!(listing.registry.is_none());
}

#[test]
fn an_unreadable_store_ends_the_listing() {
    let listing = projects(&[
        alive("/a", Some(vec![])),
        gone("/x/facts"),
        alive("/b", None),
        alive("/c", Some(vec![])),
    ]);
    assert_eq!(listing.lines, ["/a  0 facts  last -"]);
    assert_eq!(listing.unreadable.as_deref(), Some("/b/.factsheet/facts.jsonl"));
    assert!(listing.registry.is_none());
}

#[test]
fn the_root_is_the_nearest_marked_directory() {
    let marks = |has_store: bool, has_git: bool| Marks { has_store, has_git };
    assert_eq!(find_root(&[marks(false, false), marks(false, true), marks(true, true)]), 1);
    assert_eq!(find_root(&[marks(true, false), marks(false, true)]), 0);
    assert_eq!(find_root(&[marks(false, false), marks(false, false)]), 0);
    assert_eq!(find_root(&[]), 0);
}

#[test]
fn the_editor_that_is_set() {
    let some = |s: &str| Some(s.to_owned());
    let command = choose_editor(some("code  --wait"), some("nano"), "vi");
    assert_eq!(command.line, "code  --wait");
    assert_eq!(command.words, ["code", "--wait"]);
    assert_eq!(choose_editor(None, some("nano"), "vi").words, ["nano"]);
    assert_eq!(choose_editor(some("  "), some("nano"), "vi").words, ["vi"]);
    assert_eq!(choose_editor(None, None, "vi").line, "vi");
}
