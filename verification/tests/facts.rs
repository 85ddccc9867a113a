use factsheet::fact::{
    check_len, clean_tags, group_tag, position, render, render_bare, Fact,
};
use factsheet::id::new_id;

fn list(words: &[&str]) -> Vec<String> {
    words.iter().map(|w| (*w).to_owned()).collect()
}

fn fact(id: &str, text: &str, check: &str, tags: &[&str]) -> Fact {
    Fact {
        id: id.to_owned(),
        text: text.to_owned(),
        check: check.to_owned(),
        tags: list(tags),
        ts: "2026-08-19".to_owned(),
    }
}

#[test]
fn lines_of_facts() {
    let both = fact("ze6", "deploy log", "systemctl status app", &["deploy", "log"]);
    assert_eq!(render_bare(&both), "[ze6] deploy log | check: systemctl status app");
    assert_eq!(
        render(&both),
        "[ze6] deploy log | check: systemctl status app  #deploy #log  (2026-08-19)"
    );
    let check = fact("b78", "", "systemctl status", &[]);
    assert_eq!(render_bare(&check), "[b78] check: systemctl status");
    assert_eq!(render(&check), "[b78] check: systemctl status  (2026-08-19)");
    let text = fact("q3o", "resize needs deallocate", "", &["ref"]);
    assert_eq!(render(&text), "[q3o] resize needs deallocate  #ref  (2026-08-19)");
    assert_eq!(render_bare(&fact("x", "", "", &[])), "[x] ");
}

#[test]
fn tags_are_cleaned() {
    assert_eq!(clean_tags(&list(&[" b ", "a", "", "b", "  ", "c", "a "])), ["b", "a", "c"]);
    assert!(clean_tags(&list(&["", " "])).is_empty());
    let once = clean_tags(&list(&["x", " x", "y"]));
    assert_eq!(clean_tags(&once), once);
}

#[test]
fn reference_facts_and_groups() {
    assert!(fact("a", "t", "", &["x", "ref"]).is_ref());
    assert!(!fact("a", "t", "", &["reference"]).is_ref());
    assert_eq!(group_tag(&fact("a", "t", "", &["ref", "azure", "db"])), "azure");
    assert_eq!(group_tag(&fact("a", "t", "", &["ref"])), "");
    assert_eq!(group_tag(&fact("a", "t", "", &[])), "(untagged)");
}

#[test]
fn long_texts_are_refused() {
    assert!(check_len("12345", 5).is_ok());
    assert!(check_len("\u{e9}\u{e9}\u{e9}", 3).is_ok());
    let refusal = check_len("123456", 5).unwrap_err();
    assert_eq!(
        refusal.message(),
        "fact too long (6 > 5 chars) -> not stored. One rule per fact: split into atomic facts, \
prefix with topic (`azure db: ...`), move commands to -c"
    );
    assert_eq!(fact("a", "\u{1f600}b", "", &[]).text_len(), 2);
}

#[test]
fn the_first_fact_with_an_id() {
    let facts = [fact("a", "1", "", &[]), fact("b", "2", "", &[]), fact("b", "3", "", &[])];
    assert_eq!(position(&facts, "b"), Some(1));
    assert_eq!(position(&facts, "c"), None);
    let copy = facts[1].copied();
    assert_eq!(render(&copy), render(&facts[1]));
}

#[test]
fn ids_follow_the_generator() {
    for nanos in 0u64..500 {
        let id = new_id(&[], nanos, 77);
        assert_eq!(id.len(), 3);
        assert!(id.chars().all(|c| c.is_ascii_lowercase() || c.is_ascii_digit()));
    }
    assert_eq!(new_id(&[], 1_700_000_000_000_000_001, 4242), "jfm");
    assert_eq!(new_id(&[], 0, 0), "7f7");
    assert_eq!(new_id(&[], 12_345, 1), "vjj");
}

#[test]
fn taken_ids_are_passed_over() {
    let mut facts = vec![fact("vjj", "t", "", &[])];
    assert_eq!(new_id(&facts, 12_345, 1), "m01");
    facts.push(fact("m01", "t", "", &[]));
    assert_eq!(new_id(&facts, 12_345, 1), "c0g");
    let mut last = String::new();
    let mut next = new_id(&facts, 12_345, 1);
    while next.len() == 3 {
        facts.push(fact(&next, "t", "", &[]));
        last = next;
        next = new_id(&facts, 12_345, 1);
    }
    assert_eq!(last, "i3r");
    assert_eq!(next, "ggbu");
}
