use factsheet::fact::Fact;
use factsheet::rank::{overlap, rank_by_overlap, Overlap};
use factsheet::report::{dedup, find, Line};
use factsheet::words::{tokenize, words_of_lowercase};

fn fact(id: &str, text: &str, check: &str) -> Fact {
    Fact {
        id: id.to_owned(),
        text: text.to_owned(),
        check: check.to_owned(),
        tags: vec!["same".to_owned()],
        ts: "2026-01-01".to_owned(),
    }
}

fn shown(line: &Line) -> String {
    match line {
        Line::Text(s) => s.clone(),
        Line::Scored(o, s) => format!("{:.2}{s}", o.shared as f64 / o.of as f64),
    }
}

fn all_shown(lines: &[Line]) -> Vec<String> {
    lines.iter().map(shown).collect()
}

fn score(a: &str, b: &str) -> (usize, usize) {
    let o = overlap(&tokenize(a), &tokenize(b));
    (o.shared, o.of)
}

#[test]
fn words_are_in_lower_case() {
    assert_eq!(score("Deploy LOG", "deploy log"), (2, 2));
    assert_eq!(score("\u{c9}T\u{c9} STRASSE", "\u{e9}t\u{e9} strasse"), (2, 2));
    assert_eq!(score("\u{3a3}\u{3a3}", "\u{3c3}\u{3c2}"), (1, 1));
    assert_eq!(tokenize("x-ray a1_b2 of I").len(), 4);
    assert_eq!(words_of_lowercase("ray ray").len(), 1);
}

#[test]
fn words_are_whole_runs() {
    assert_eq!(score("deploy", "redeploy deployed"), (0, 1));
    assert_eq!(score("caf\u{e9} x2", "(caf\u{e9})-x2!"), (2, 2));
    assert!(score("alpha beta", "beta").0 <= score("alpha beta", "beta").1);
}

#[test]
fn words_have_two_characters_or_more() {
    assert_eq!(tokenize("a b c").len(), 0);
    assert_eq!(tokenize("ab, cd; ab!").len(), 2);
    assert_eq!(tokenize("").len(), 0);
}

#[test]
fn the_overlap_coefficient() {
    assert_eq!(score("alpha beta", "beta gamma delta"), (1, 2));
    assert_eq!(score("beta gamma delta", "alpha beta"), (1, 2));
    assert_eq!(score("alpha", ""), (0, 1));
    assert_eq!(score("alpha", "beta"), (0, 1));
    assert_eq!(score("alpha beta", "alpha beta"), (2, 2));
}

#[test]
fn overlaps_are_ordered_as_fractions() {
    let half = Overlap { shared: 1, of: 2 };
    let same = Overlap { shared: 2, of: 4 };
    let third = Overlap { shared: 1, of: 3 };
    assert!(half.reaches(&same) && same.reaches(&half));
    assert!(half.reaches(&third) && !third.reaches(&half));
    assert!(half.near() && same.near() && !third.near());
    let large = Overlap { shared: usize::MAX, of: usize::MAX };
    assert!(large.reaches(&half) && large.near());
}

#[test]
fn ranking_goes_from_the_largest_overlap_down() {
    let facts = [
        fact("a", "alpha one two three", ""),
        fact("b", "nothing here", ""),
        fact("c", "alpha beta", ""),
        fact("d", "beta", "alpha gamma"),
        fact("e", "alpha four five six", ""),
    ];
    let hits = rank_by_overlap(&facts, &tokenize("alpha beta gamma"));
    let order: Vec<(usize, usize, usize)> =
        hits.iter().map(|(o, i)| (o.shared, o.of, *i)).collect();
    assert_eq!(order, [(2, 2, 2), (3, 3, 3), (1, 3, 0), (1, 3, 4)]);
}

#[test]
fn a_search_shows_the_five_best() {
    let facts = [
        fact("a", "cache deploy notes more", ""),
        fact("b", "deploy cache", ""),
        fact("c", "deploy", ""),
        fact("d", "cache miss", ""),
        fact("e", "deploy again", ""),
        fact("f", "cache again", ""),
        fact("g", "unrelated", ""),
    ];
    assert_eq!(
        all_shown(&find(&facts, "Deploy cache").unwrap()),
        [
            "1.00 [a] cache deploy notes more  #same  (2026-01-01)",
            "1.00 [b] deploy cache  #same  (2026-01-01)",
            "1.00 [c] deploy  #same  (2026-01-01)",
            "0.50 [d] cache miss  #same  (2026-01-01)",
            "0.50 [e] deploy again  #same  (2026-01-01)",
        ]
    );
    assert_eq!(all_shown(&find(&facts, "zebra").unwrap()), ["no matches"]);
    let refusal = find(&facts, "a ?").unwrap_err();
    assert_eq!(refusal.message(), "empty query: give at least one word of 2+ characters");
}

#[test]
fn duplicates_are_listed_in_pairs() {
    let facts = [
        fact("a", "alpha beta gamma delta", ""),
        fact("b", "alpha beta one two", ""),
        fact("c", "gamma delta alpha beta", ""),
    ];
    assert_eq!(
        all_shown(&dedup(&facts, 200)),
        [
            "1.00",
            "  [a] alpha beta gamma delta  #same  (2026-01-01)",
            "  [c] gamma delta alpha beta  #same  (2026-01-01)",
            "0.50",
            "  [a] alpha beta gamma delta  #same  (2026-01-01)",
            "  [b] alpha beta one two  #same  (2026-01-01)",
            "0.50",
            "  [b] alpha beta one two  #same  (2026-01-01)",
            "  [c] gamma delta alpha beta  #same  (2026-01-01)",
        ]
    );
}

#[test]
fn tags_do_not_make_facts_alike() {
    let facts = [fact("a", "alpha", ""), fact("b", "beta", "")];
    assert_eq!(all_shown(&dedup(&facts, 200)), ["no near-duplicates (overlap >= 0.5)"]);
}

#[test]
fn long_facts_are_listed_from_the_longest_down() {
    let facts = [
        fact("a", "xxxxx", ""),
        fact("b", "yyyyyyy", ""),
        fact("c", "zzz", "a check is never too long"),
        fact("d", "wwwww", ""),
    ];
    assert_eq!(
        all_shown(&dedup(&facts, 4)),
        [
            "over 4 chars (3) -> split each into atomic facts (`factsheet add` per rule, then \
`factsheet drop` the old id):",
            "  7 chars [b] yyyyyyy  #same  (2026-01-01)",
            "  5 chars [a] xxxxx  #same  (2026-01-01)",
            "  5 chars [d] wwwww  #same  (2026-01-01)",
            "no near-duplicates (overlap >= 0.5)",
        ]
    );
}
