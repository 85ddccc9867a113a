use factsheet::config::{
    config_from, config_path, count_or, load_config, Config, ConfigBase, Loaded, Problem, Setting,
    Source, DEFAULT_CONFIG,
};
use factsheet::fact::Fact;
use factsheet::session::{inject, say_user_instructions, INJECT_RULES};
use factsheet::tally::ref_footer;

fn fact(id: &str, text: &str, tags: &[&str]) -> Fact {
    Fact {
        id: id.to_owned(),
        text: text.to_owned(),
        check: String::new(),
        tags: tags.iter().map(|t| (*t).to_owned()).collect(),
        ts: "2026-01-01".to_owned(),
    }
}

fn from_text(text: &str) -> Loaded {
    load_config(&Source::Text(text.to_owned()))
}

fn settings(loaded: &Loaded) -> (usize, usize, Result<String, String>) {
    let config = &loaded.config;
    let instructions = match &config.user_instructions {
        Ok(s) => Ok(s.clone()),
        Err(p) => Err(p.message()),
    };
    (config.max_text, config.hot_warn, instructions)
}

#[test]
fn an_empty_project_gets_the_rules() {
    let lines = inject(&[], &Config::default());
    assert_eq!(lines, ["## Project memory (empty)", INJECT_RULES]);
    assert!(INJECT_RULES.starts_with("factsheet = persistent per-project memory (this CLI),"));
    assert_eq!(INJECT_RULES.lines().count(), 5);
}

#[test]
fn a_session_shows_facts_without_tags_and_dates() {
    let facts = [fact("q3o", "azure vm", &["azure"]), fact("b78", "second", &[])];
    let lines = inject(&facts, &Config::default());
    assert_eq!(
        lines,
        ["## Project memory (2)", "[q3o] azure vm", "[b78] second", "---", INJECT_RULES]
    );
}

#[test]
fn reference_facts_stay_out_of_the_session() {
    let facts = [
        fact("a", "secret", &["ref", "keys"]),
        fact("b", "hot", &["keys"]),
        fact("c", "host map", &["ref", "azure"]),
    ];
    let lines = inject(&facts, &Config::default());
    assert_eq!(
        lines,
        [
            "## Project memory (1 + 2 ref)",
            "[b] hot",
            "---",
            INJECT_RULES,
            "ref: pull with `factsheet ls -t <tag>` | #azure 1 #keys 1",
        ]
    );
}

#[test]
fn reference_facts_without_other_tags_are_counted() {
    let refs = [fact("a", "x", &["ref"]), fact("b", "y", &["ref"])];
    assert_eq!(ref_footer(&refs), "ref: 2 facts, pull with `factsheet ls -t ref`");
}

#[test]
fn too_many_facts_give_a_warning() {
    let facts = [fact("a", "x", &[]), fact("b", "y", &[]), fact("c", "z", &["ref"])];
    let config = Config { hot_warn: 1, ..Config::default() };
    let lines = inject(&facts, &config);
    assert_eq!(
        lines[lines.len() - 1],
        "hot: 2 > 1 -> curate: merge dups, drop dead, demote lookups to ref"
    );
    let config = Config { hot_warn: 2, ..Config::default() };
    assert_eq!(inject(&facts, &config).len(), 6);
}

#[test]
fn instructions_come_last() {
    let config = Config { user_instructions: Ok("Tag every fact.".to_owned()), ..Config::default() };
    let lines = inject(&[], &config);
    assert_eq!(lines[2..], ["---", "Tag every fact."]);
    assert!(say_user_instructions(&Config::default()).is_empty());
}

#[test]
fn preserves_unreadable_config_and_reports_it_in_inject() {
    let loaded = load_config(&Source::Unreadable);
    let output = inject(&[], &loaded.config).join("\n");
    assert!(output.contains("cannot read config"));
    assert!(output.contains("User instructions were not injected"));
    assert_eq!(
        say_user_instructions(&loaded.config)[1],
        "factsheet: config.toml: cannot read config; check UTF-8 encoding and file permissions. \
User instructions were not injected. Tell the user to check the global factsheet/config.toml: \
use user_instructions = \"text\" or triple quotes for multiple lines; escape double quotes and \
backslashes in basic strings, or use literal single-quoted strings."
    );
}

#[test]
fn settings_from_a_file() {
    let loaded = from_text(
        "hot_warn = 3\nuser_instructions = \"\"\"\nAdd facts.\nTag them.\n\"\"\"\nmax_text = 90\n",
    );
    assert!(loaded.warnings.is_empty());
    assert_eq!(settings(&loaded), (90, 3, Ok("Add facts.\nTag them.\n".to_owned())));
    let loaded = from_text("");
    assert_eq!(settings(&loaded), (200, 40, Ok(String::new())));
}

#[test]
fn the_default_file_gives_the_defaults() {
    let loaded = from_text(DEFAULT_CONFIG);
    assert!(loaded.warnings.is_empty());
    assert_eq!(settings(&loaded), (200, 40, Ok(String::new())));
}

#[test]
fn files_that_are_no_toml() {
    let loaded = from_text("max_text = ");
    let why = "invalid TOML syntax; config defaults used".to_owned();
    assert_eq!(settings(&loaded), (200, 40, Err(why.clone())));
    let loaded = from_text("max_text = 5\nmax_text = 6\n");
    assert_eq!(settings(&loaded), (200, 40, Err(why)));
}

#[test]
fn values_of_the_wrong_type() {
    let loaded = from_text("max_text = -1\nhot_warn = \"many\"\nuser_instructions = 7\ncolour = 1\n");
    let why = "user_instructions must be a TOML string".to_owned();
    assert_eq!(settings(&loaded), (200, 40, Err(why)));
    let mut warnings = loaded.warnings;
    warnings.sort();
    assert_eq!(
        warnings,
        [
            "factsheet: config: 'hot_warn' wants a non-negative integer; default kept",
            "factsheet: config: 'max_text' wants a non-negative integer; default kept",
            "factsheet: config: unknown key 'colour' ignored",
        ]
    );
    for value in ["1.5", "true", "1979-05-27", "[1]", "{ a = 1 }"] {
        let loaded = from_text(&format!("max_text = {value}\n"));
        assert_eq!(loaded.config.max_text, 200);
        assert_eq!(loaded.warnings.len(), 1);
    }
}

#[test]
fn settings_from_entries() {
    let entries = vec![
        ("max_text".to_owned(), Setting::Integer(7)),
        ("other".to_owned(), Setting::Boolean),
        ("user_instructions".to_owned(), Setting::Text("hi".to_owned())),
    ];
    let loaded = config_from(Some(entries));
    assert_eq!(settings(&loaded), (7, 40, Ok("hi".to_owned())));
    assert_eq!(loaded.warnings, ["factsheet: config: unknown key 'other' ignored"]);
    assert!(config_from(None).config.user_instructions.is_err());
    assert_eq!(count_or("k", &Setting::Integer(0), 9), (0, None));
    let (kept, warning) = count_or("k", &Setting::Array, 9);
    assert_eq!(kept, 9);
    assert_eq!(
        warning.as_deref(),
        Some("factsheet: config: 'k' wants a non-negative integer; default kept")
    );
}

#[test]
fn files_that_are_missing() {
    for source in [Source::Nowhere, Source::Created] {
        assert_eq!(settings(&load_config(&source)), (200, 40, Ok(String::new())));
    }
    let loaded = load_config(&Source::NotCreated);
    let why = "cannot create config; check file permissions".to_owned();
    assert_eq!(settings(&loaded), (200, 40, Err(why)));
    assert!(matches!(loaded.config.user_instructions, Err(Problem::CannotCreate)));
}

#[test]
fn the_place_of_the_settings() {
    assert_eq!(config_path(true, true, true), Some(ConfigBase::XdgConfigHome));
    assert_eq!(config_path(false, true, true), Some(ConfigBase::HomeConfig));
    assert_eq!(config_path(false, false, true), Some(ConfigBase::AppData));
    assert_eq!(config_path(false, false, false), None);
}
