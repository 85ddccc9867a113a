use factsheet::commands::add;
use factsheet::curating::{begin_curating, curate};
use factsheet::fact::{render, Fact};
use factsheet::layout::render_sheet;
use factsheet::sheet::{
    apply_sheet, finish_sheet, parse_sheet_line, plan_sheet, SheetLine, Summary,
};

fn list(words: &[&str]) -> Vec<String> {
    words.iter().map(|w| (*w).to_owned()).collect()
}

fn fact(id: &str, text: &str, check: &str, tags: &[&str]) -> Fact {
    Fact {
        id: id.to_owned(),
        text: text.to_owned(),
        check: check.to_owned(),
        tags: list(tags),
        ts: "2026-01-01".to_owned(),
    }
}

fn parse(line: &str) -> SheetLine {
    parse_sheet_line(line).unwrap()
}

fn rendered(facts: &[Fact]) -> Vec<String> {
    facts.iter().map(render).collect()
}

fn refusal_of(facts: Vec<Fact>, sheet: &str, limit: usize) -> String {
    apply_sheet(facts, sheet, "2026-09-04", limit, 1).unwrap_err().message()
}

#[test]
fn sheet_groups_facts_by_tag() {
    let facts = [
        fact("q3o", "azure vm resize", "", &["ref", "azure"]),
        fact("ze6", "deploy log", "systemctl status app", &["deploy"]),
        fact("k1d", "bare", "", &[]),
        fact("abc", "build first", "", &["build", "deploy"]),
        fact("zzz", "key list", "", &["ref"]),
        fact("ddd", "second deploy", "", &["deploy"]),
    ];
    assert_eq!(
        render_sheet(&facts),
        "\
# factsheet curate. One fact per line: [id] text | check: cmd  #tag #tag  (date)
# delete a line = drop | change text, check or tags = edit | new line without [id] = add
# lines starting with # and the (date) are ignored | empty sheet = abort

# (untagged)
[k1d] bare  (2026-01-01)

# build
[abc] build first  #build #deploy  (2026-01-01)

# deploy
[ze6] deploy log | check: systemctl status app  #deploy  (2026-01-01)
[ddd] second deploy  #deploy  (2026-01-01)

# ref
[zzz] key list  #ref  (2026-01-01)

# ref: azure
[q3o] azure vm resize  #ref #azure  (2026-01-01)
"
    );
}

#[test]
fn lines_of_a_sheet_are_read() {
    let line = parse("[ze6] deploy log | check: status app  #deploy #log  (2026-08-19)");
    assert_eq!(line.id.as_deref(), Some("ze6"));
    assert_eq!((line.text.as_str(), line.check.as_str()), ("deploy log", "status app"));
    assert_eq!(line.tags, ["deploy", "log"]);
    let fresh = parse("Brand new | check: true  #d");
    assert_eq!(fresh.id, None);
    assert_eq!((fresh.text.as_str(), fresh.check.as_str()), ("Brand new", "true"));
    assert_eq!(fresh.tags, ["d"]);
    let check = parse("[b] check: make test  (x)");
    assert_eq!((check.text.as_str(), check.check.as_str()), ("", "make test"));
    let odd = parse("[open text  #a  #b #a");
    assert_eq!(odd.id, None);
    assert_eq!(odd.text, "[open text");
    assert_eq!(odd.tags, ["a", "b"]);
}

#[test]
fn lines_that_cannot_be_read() {
    let refusal = parse_sheet_line("[a] one  two").unwrap_err();
    assert_eq!(refusal.message(), "cannot parse: [a] one  two");
    let refusal = parse_sheet_line("   ").unwrap_err();
    assert_eq!(refusal.message(), "empty line:    ");
}

#[test]
fn a_shown_fact_reads_back() {
    let facts = [
        fact("ze6", "deploy log; rotation 7d", "systemctl status app", &["deploy", "#x", "a b"]),
        fact("q3o", "azure (vm) [x] #1", "", &[]),
        fact("b78", "", "check: nested | check: twice", &["ref"]),
        fact("nil", "", "", &["ref", "x"]),
        fact("non", "", "", &[]),
    ];
    for f in &facts {
        let line = parse(&render(f));
        assert_eq!(line.id.as_deref(), Some(f.id.as_str()));
        assert_eq!(line.text, f.text);
        assert_eq!(line.check, f.check);
        assert_eq!(line.tags, f.tags);
    }
}

#[test]
fn added_facts_read_back() {
    for nanos in 0u64..50 {
        let tags = list(&["deploy", "a b"]);
        let (f, _) = add(&[], "x (y) #z", "[c] d", &tags, 200, "2026-09-04", nanos, 3).unwrap();
        let line = parse(&render(&f));
        assert_eq!(line.id.as_deref(), Some(f.id.as_str()));
        assert_eq!((line.text, line.check, line.tags), (f.text, f.check, f.tags));
    }
}

#[test]
fn every_fact_has_its_line_in_the_sheet() {
    let facts =
        [fact("a", "two  spaces", "", &["t"]), fact("b", "", "", &[]), fact("c", "#x", "", &["t"])];
    let sheet = render_sheet(&facts);
    let lines: Vec<&str> = sheet
        .lines()
        .map(str::trim)
        .filter(|l| !l.is_empty() && !l.starts_with('#'))
        .collect();
    assert_eq!(lines, [render(&facts[1]), render(&facts[0]), render(&facts[2])]);
}

#[test]
fn some_texts_do_not_read_back() {
    let line = parse(&render(&fact("a", "check: not really", "", &[])));
    assert_eq!((line.text.as_str(), line.check.as_str()), ("", "not really"));
    let line = parse(&render(&fact("a", "x | check: y", "z", &[])));
    assert_eq!((line.text.as_str(), line.check.as_str()), ("x", "y | check: z"));
    let line = parse(&render(&fact("a]b", "t", "", &[])));
    assert_eq!((line.id.as_deref(), line.text.as_str()), (Some("a"), "b] t"));
}

#[test]
fn an_unchanged_sheet_changes_nothing() {
    let facts = || {
        vec![
            fact("q3o", "azure vm resize", "", &["ref", "azure"]),
            fact("ze6", "deploy log", "systemctl status app", &["deploy"]),
            fact("k1d", "bare", "", &[]),
        ]
    };
    let sheet = render_sheet(&facts());
    let (after, summary) = apply_sheet(facts(), &sheet, "2026-09-04", 200, 1).unwrap();
    assert!(!summary.has_changes());
    assert_eq!(summary.report(), "no changes");
    let mut before = rendered(&facts());
    let mut kept = rendered(&after);
    before.sort();
    kept.sort();
    assert_eq!(kept, before);
}

#[test]
fn curate_applies_edits_drops_and_adds_from_the_sheet() {
    let facts = vec![
        fact("keep", "Old text", "", &["a"]),
        fact("gone", "Remove me", "", &["b"]),
        fact("same", "Untouched", "", &["ref"]),
    ];
    let sheet = render_sheet(&facts);
    let mut edited = String::new();
    for line in sheet.lines().filter(|l| !l.contains("Remove me")) {
        let line = line.replace("Old text", "New text");
        edited.push_str(&line.replace("Untouched  #ref", "Untouched  #ref #c"));
        edited.push('\n');
    }
    edited.push_str("Brand new | check: true  #d\n");
    let (after, summary) = apply_sheet(facts, &edited, "2026-09-04", 200, 7).unwrap();
    assert_eq!(summary.report(), "added 1, edited 2, dropped 1");
    let listing = rendered(&after);
    assert_eq!(listing.len(), 3);
    assert_eq!(listing[0], "[keep] New text  #a  (2026-09-04)");
    assert_eq!(listing[1], "[same] Untouched  #ref #c  (2026-01-01)");
    assert!(listing[2].ends_with("] Brand new | check: true  #d  (2026-09-04)"));
    assert_eq!(after[2].id.chars().count(), 3);
}

#[test]
fn new_facts_of_a_sheet_get_ids_in_turn() {
    let facts = vec![fact("vjj", "kept", "", &[])];
    let sheet = "[vjj] kept\none\ntwo\n";
    let plan = plan_sheet(facts, sheet, "2026-09-04", 200).unwrap();
    assert_eq!(plan.fresh.len(), 2);
    let (after, summary) = finish_sheet(plan, "2026-09-04", &[12_345, 12_345], 1);
    let ids: Vec<&str> = after.iter().map(|f| f.id.as_str()).collect();
    assert_eq!(ids, ["vjj", "m01", "c0g"]);
    assert_eq!((summary.added, summary.edited, summary.dropped), (2, 0, 0));
}

#[test]
fn refused_sheets() {
    let facts = || vec![fact("a", "one", "", &[]), fact("b", "two", "", &[])];
    assert_eq!(refusal_of(facts(), "# only\n\n  # comments\n", 200), "empty sheet");
    assert_eq!(refusal_of(facts(), "", 200), "empty sheet");
    assert_eq!(refusal_of(facts(), "[c] x\n", 200), "unknown or repeated id 'c'");
    assert_eq!(refusal_of(facts(), "[a] x\n[a] x\n", 200), "unknown or repeated id 'a'");
    assert_eq!(refusal_of(facts(), "[a]  #t\n", 200), "empty fact: a");
    assert_eq!(refusal_of(facts(), "[] #t\n", 200), "unknown or repeated id ''");
    assert_eq!(refusal_of(facts(), "[a] x  y\n", 200), "cannot parse: [a] x  y");
    assert!(refusal_of(facts(), "[a] 12345\n", 4).starts_with("fact too long (5 > 4 chars)"));
    assert!(refusal_of(facts(), "123456\n", 4).starts_with("fact too long (6 > 4 chars)"));
}

#[test]
fn the_limit_spares_unchanged_texts() {
    let facts = vec![fact("a", "a long old text", "", &[])];
    let (after, summary) =
        apply_sheet(facts, "[a] a long old text  #t\n", "2026-09-04", 4, 1).unwrap();
    assert_eq!(rendered(&after), ["[a] a long old text  #t  (2026-01-01)"]);
    assert_eq!(summary.edited, 1);
}

#[test]
fn the_last_fact_of_an_id_counts() {
    let facts = vec![fact("a", "first", "", &[]), fact("a", "second", "", &[])];
    let (after, summary) = apply_sheet(facts, "[a] second\n", "2026-09-04", 200, 1).unwrap();
    assert_eq!(rendered(&after), ["[a] second  (2026-01-01)"]);
    assert!(!summary.has_changes());
}

#[test]
fn summaries_in_words() {
    let summary = Summary { added: 0, edited: 10, dropped: 2 };
    assert!(summary.has_changes());
    assert_eq!(summary.report(), "added 0, edited 10, dropped 2");
}

#[test]
fn curating_from_sheet_to_store() {
    assert_eq!(begin_curating(None).unwrap_err().message(), "no facts to curate");
    let facts = || vec![fact("a", "one", "", &[]), fact("b", "two", "", &[])];
    let sheet = begin_curating(Some(&facts())).unwrap();
    assert_eq!(sheet, render_sheet(&facts()));
    let kept = curate(facts(), &sheet, "2026-09-04", 200, 1).unwrap();
    assert!(kept.save.is_none());
    assert_eq!(kept.line, "no changes");
    let changed = curate(facts(), "[b] two\n", "2026-09-04", 200, 1).unwrap();
    assert_eq!(rendered(&changed.save.unwrap()), ["[b] two  (2026-01-01)"]);
    assert_eq!(changed.line, "added 0, edited 0, dropped 1");
    assert_eq!(curate(facts(), "", "2026-09-04", 200, 1).unwrap_err().message(), "empty sheet");
}
