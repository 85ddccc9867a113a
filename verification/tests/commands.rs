use factsheet::commands::{
    add, can_list, check_change, check_new_fact, drop_fact, edit, ls, Change,
};
use factsheet::fact::{render, Fact};
use factsheet::report::Line;
use factsheet::store::load;
use factsheet::tally::tags;

fn list(words: &[&str]) -> Vec<String> {
    words.iter().map(|w| (*w).to_owned()).collect()
}

fn fact(id: &str, text: &str, tags: &[&str], ts: &str) -> Fact {
    Fact {
        id: id.to_owned(),
        text: text.to_owned(),
        check: String::new(),
        tags: list(tags),
        ts: ts.to_owned(),
    }
}

fn change(text: Option<&str>, check: Option<&str>, tags: Option<&[&str]>) -> Change {
    Change {
        text: text.map(str::to_owned),
        check: check.map(str::to_owned),
        tags: tags.map(list),
    }
}

fn plain(line: &Line) -> &str {
    match line {
        Line::Text(s) => s,
        Line::Scored(_, s) => s,
    }
}

fn store() -> Vec<Fact> {
    vec![
        fact("one", "deploy needs clean build", &["deploy"], "2026-01-01"),
        fact("two", "azure keys", &["ref", "azure"], "2026-09-01"),
        fact("odd", "no date", &["deploy", "vm"], "unknown"),
    ]
}

#[test]
fn adding_a_fact() {
    let facts = store();
    let (f, lines) = add(
        &facts,
        "  deploy:\n run  build ",
        " make\ttest ",
        &list(&["deploy", " deploy", ""]),
        200,
        "2026-09-04",
        12_345,
        1,
    )
    .unwrap();
    assert_eq!(
        render(&f),
        "[vjj] deploy: run build | check: make test  #deploy  (2026-09-04)"
    );
    assert_eq!(plain(&lines[0]), render(&f));
    assert_eq!(lines.len(), 2);
    assert_eq!(
        plain(&lines[1]),
        "similar: [one] deploy needs clean build  #deploy  (2026-01-01)"
    );
}

#[test]
fn three_similar_facts_at_most() {
    let facts: Vec<Fact> = ["a", "b", "c", "d", "e"]
        .iter()
        .map(|id| fact(id, "alpha beta", &[], "2026-01-01"))
        .collect();
    let (_, lines) = add(&facts, "beta alpha", "", &[], 200, "2026-09-04", 0, 0).unwrap();
    let shown: Vec<&str> = lines.iter().map(plain).collect();
    assert_eq!(
        shown,
        [
            "[7f7] beta alpha  (2026-09-04)",
            "similar: [a] alpha beta  (2026-01-01)",
            "similar: [b] alpha beta  (2026-01-01)",
            "similar: [c] alpha beta  (2026-01-01)",
        ]
    );
}

#[test]
fn no_similar_fact_is_left_out() {
    let facts = [
        fact("low", "alpha one two three", &[], "2026-01-01"),
        fact("half", "alpha beta one two", &[], "2026-01-01"),
        fact("none", "other words", &[], "2026-01-01"),
        fact("full", "alpha beta gamma delta", &[], "2026-01-01"),
    ];
    let (_, lines) =
        add(&facts, "alpha beta gamma delta", "", &[], 200, "2026-09-04", 0, 0).unwrap();
    let shown: Vec<&str> = lines.iter().skip(1).map(plain).collect();
    assert_eq!(
        shown,
        [
            "similar: [full] alpha beta gamma delta  (2026-01-01)",
            "similar: [half] alpha beta one two  (2026-01-01)",
        ]
    );
}

#[test]
fn facts_that_are_not_stored() {
    let refusal = add(&[], " ", "\t", &[], 200, "2026-09-04", 0, 0).unwrap_err();
    assert_eq!(refusal.message(), "nothing to store: give fact text and/or --check <cmd>");
    let refusal = add(&[], "12345", "", &[], 4, "2026-09-04", 0, 0).unwrap_err();
    assert!(refusal.message().starts_with("fact too long (5 > 4 chars)"));
    assert!(check_new_fact(" 1234 ", "", 4).is_ok());
    assert!(check_new_fact("", "a check may be long", 4).is_ok());
    assert!(check_new_fact("", " ", 4).is_err());
}

#[test]
fn an_added_fact_has_an_id_of_its_own() {
    let mut facts = store();
    for n in 0u64..300 {
        let (f, _) = add(&facts, "x y", "", &[], 200, "2026-09-04", n % 3, 0).unwrap();
        assert!(facts.iter().all(|g| g.id != f.id));
        facts.push(f);
    }
}

#[test]
fn dropping_undoes_adding() {
    let (f, _) = add(&store(), "short lived", "", &[], 200, "2026-09-04", 5, 5).unwrap();
    let id = f.id.clone();
    let mut facts = store();
    facts.push(f);
    let (rest, line) = drop_fact(facts, &id).unwrap();
    assert_eq!(line, format!("dropped {id}"));
    let before: Vec<String> = store().iter().map(render).collect();
    let after: Vec<String> = rest.iter().map(render).collect();
    assert_eq!(after, before);
}

#[test]
fn dropping_takes_all_facts_with_the_id() {
    let mut facts = store();
    facts.push(fact("one", "again", &[], "2026-01-01"));
    let (rest, line) = drop_fact(facts, "one").unwrap();
    let ids: Vec<&str> = rest.iter().map(|f| f.id.as_str()).collect();
    assert_eq!(ids, ["two", "odd"]);
    assert_eq!(line, "dropped one");
    let refusal = drop_fact(store(), "none").unwrap_err();
    assert_eq!(refusal.message(), "no fact with id 'none'");
}

#[test]
fn editing_text_and_check_refreshes_the_date() {
    let (facts, line) = edit(
        store(),
        "one",
        change(Some(" new\n text "), None, None),
        200,
        "2026-09-04",
    )
    .unwrap();
    assert_eq!(line, "[one] new text  #deploy  (2026-09-04)");
    assert_eq!(render(&facts[0]), line);
    assert_eq!(render(&facts[1]), render(&store()[1]));
    let (facts, line) =
        edit(facts, "one", change(None, Some("make  test"), None), 200, "2026-09-05").unwrap();
    assert_eq!(line, "[one] new text | check: make test  #deploy  (2026-09-05)");
    assert_eq!(facts.len(), 3);
}

#[test]
fn editing_tags_keeps_the_date() {
    let tags: &[&str] = &["ref", " x ", "ref"];
    let (_, line) =
        edit(store(), "one", change(None, None, Some(tags)), 200, "2026-09-04").unwrap();
    assert_eq!(line, "[one] deploy needs clean build  #ref #x  (2026-01-01)");
    let none: &[&str] = &[""];
    let (_, line) =
        edit(store(), "one", change(None, None, Some(none)), 200, "2026-09-04").unwrap();
    assert_eq!(line, "[one] deploy needs clean build  (2026-01-01)");
}

#[test]
fn refused_edits() {
    let message = |id: &str, c: Change, limit: usize| {
        edit(store(), id, c, limit, "2026-09-04").unwrap_err().message()
    };
    assert_eq!(
        message("one", change(None, None, None), 200),
        "nothing to change: give new text, --check and/or --tags"
    );
    assert_eq!(message("none", change(Some("x"), None, None), 200), "no fact with id 'none'");
    assert!(message("one", change(Some("12345"), None, None), 4)
        .starts_with("fact too long (5 > 4 chars)"));
    assert_eq!(
        message("one", change(Some(" "), None, None), 200),
        "edit would leave the fact empty; use `factsheet drop` instead"
    );
    assert_eq!(message("none", change(Some("12345"), None, None), 4), "no fact with id 'none'");
}

#[test]
fn listing_facts() {
    let facts = store();
    let all: Vec<String> = facts.iter().map(render).collect();
    assert_eq!(ls(&facts, &[], None, 20_700).unwrap(), all);
    assert_eq!(ls(&facts, &list(&["", " "]), None, 20_700).unwrap(), all);
    assert_eq!(ls(&facts, &list(&["ref"]), None, 20_700).unwrap(), [all[1].clone()]);
    assert_eq!(
        ls(&facts, &list(&["vm", "azure"]), None, 20_700).unwrap(),
        [all[1].clone(), all[2].clone()]
    );
    assert!(ls(&facts, &list(&["nothing"]), None, 20_700).unwrap().is_empty());
}

#[test]
fn listing_stale_facts() {
    let facts = store();
    let all: Vec<String> = facts.iter().map(render).collect();
    let stale = ls(&facts, &[], Some("30d"), 20_700).unwrap();
    assert_eq!(stale, [all[0].clone(), all[2].clone()]);
    assert_eq!(ls(&facts, &[], Some("3d"), 20_700).unwrap(), all);
    assert_eq!(ls(&facts, &[], Some("4"), 20_700).unwrap().len(), 2);
    assert_eq!(ls(&facts, &[], Some("20700"), 20_700).unwrap(), [all[2].clone()]);
    let refusal = ls(&facts, &[], Some("soon"), 20_700).unwrap_err();
    assert_eq!(refusal.message(), "bad --stale value 'soon', expected e.g. 30d");
}

#[test]
fn dates_too_far_away_stop_a_listing_by_age() {
    let mut facts = store();
    facts.push(fact("far", "far", &["far"], "9223372036854775807-01-01"));
    assert!(can_list(&facts, &[], None));
    assert!(!can_list(&facts, &[], Some("30d")));
    assert!(can_list(&facts, &list(&["deploy"]), Some("30d")));
    assert!(can_list(&facts, &[], Some("soon")));
    assert_eq!(ls(&facts, &list(&["deploy"]), Some("30d"), 20_700).unwrap().len(), 2);
    assert_eq!(ls(&facts, &[], None, 20_700).unwrap().len(), 4);
}

#[test]
fn changes_that_name_no_field() {
    assert!(check_change(&change(None, Some(""), None)).is_ok());
    assert_eq!(
        check_change(&change(None, None, None)).unwrap_err().message(),
        "nothing to change: give new text, --check and/or --tags"
    );
}

#[test]
fn counts_each_tag_once_per_fact() {
    let stored = fact("old", "Old fact", &["deploy", "deploy"], "2026-09-05");
    let mut facts = load(vec![Some(stored)]);
    assert_eq!(tags(&facts), ["#deploy 1"]);
    let (f, _) =
        add(&facts, "New fact", "", &list(&["deploy", "deploy"]), 200, "2026-09-05", 1, 1).unwrap();
    facts.push(f);
    assert_eq!(tags(&facts), ["#deploy 2"]);
    let twice: &[&str] = &["deploy", "deploy"];
    let (facts, _) =
        edit(facts, "old", change(None, None, Some(twice)), 200, "2026-09-05").unwrap();
    assert_eq!(tags(&facts), ["#deploy 2"]);
    assert_eq!(facts[0].tags, ["deploy"]);
}

#[test]
fn tags_are_listed_in_order() {
    assert_eq!(tags(&store()), ["#azure 1", "#deploy 2", "#ref 1", "#vm 1"]);
    assert!(tags(&[]).is_empty());
}
