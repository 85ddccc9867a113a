//! The settings of the user.

use vstd::prelude::*;

use crate::text::{push_text, same, texts};

verus! {

/// Why the instructions of the user could not be read.
#[derive(Clone, Copy, Debug)]
pub enum Problem {
    CannotCreate,
    CannotRead,
    InvalidSyntax,
    NotAString,
}

pub open spec fn problem_text(p: Problem) -> Seq<char> {
    match p {
        Problem::CannotCreate => "cannot create config; check file permissions"@,
        Problem::CannotRead =>
        "cannot read config; check UTF-8 encoding and file permissions"@,
        Problem::InvalidSyntax => "invalid TOML syntax; config defaults used"@,
        Problem::NotAString => "user_instructions must be a TOML string"@,
    }
}

impl Problem {
    /// The problem in words.
    pub fn message(&self) -> (s: String)
        ensures
            s@ == problem_text(*self),
    {
        match self {
            Problem::CannotCreate => "cannot create config; check file permissions".to_owned(),
            Problem::CannotRead => {
                "cannot read config; check UTF-8 encoding and file permissions".to_owned()
            },
            Problem::InvalidSyntax => "invalid TOML syntax; config defaults used".to_owned(),
            Problem::NotAString => "user_instructions must be a TOML string".to_owned(),
        }
    }
}

/// The settings.
#[derive(Debug)]
pub struct Config {
    /// The largest number of characters of the text of a fact.
    pub max_text: usize,
    /// The number of facts for every session above which the user is warned.
    pub hot_warn: usize,
    /// What the user adds to every session.
    pub user_instructions: Result<String, Problem>,
}

#[verifier::ext_equal]
pub struct Settings {
    pub max_text: nat,
    pub hot_warn: nat,
    pub user_instructions: Result<Seq<char>, Problem>,
}

impl View for Config {
    type V = Settings;

    open spec fn view(&self) -> Settings {
        Settings {
            max_text: self.max_text as nat,
            hot_warn: self.hot_warn as nat,
            user_instructions: match self.user_instructions {
                Ok(s) => Ok(s@),
                Err(p) => Err(p),
            },
        }
    }
}

/// The settings of a user who has set nothing.
pub open spec fn default_settings() -> Settings {
    Settings { max_text: 200, hot_warn: 40, user_instructions: Ok(Seq::empty()) }
}

impl Default for Config {
    fn default() -> (c: Config)
        ensures
            c@ == default_settings(),
    {
        Config { max_text: 200, hot_warn: 40, user_instructions: Ok(String::new()) }
    }
}

/// The file that a user without settings gets.
pub const DEFAULT_CONFIG: &'static str = "\
# factsheet config
# max fact text length in chars; longer facts are rejected
max_text = 200
# inject warns to curate when hot facts exceed this count
hot_warn = 40
";

// ---- the file ----

/// A value in the file.
#[derive(Debug)]
pub enum Setting {
    Text(String),
    Integer(i64),
    Float,
    Boolean,
    Datetime,
    Array,
    Table,
}

#[verifier::ext_equal]
pub enum SettingText {
    Text(Seq<char>),
    Integer(int),
    Float,
    Boolean,
    Datetime,
    Array,
    Table,
}

impl View for Setting {
    type V = SettingText;

    open spec fn view(&self) -> SettingText {
        match *self {
            Setting::Text(s) => SettingText::Text(s@),
            Setting::Integer(n) => SettingText::Integer(n as int),
            Setting::Float => SettingText::Float,
            Setting::Boolean => SettingText::Boolean,
            Setting::Datetime => SettingText::Datetime,
            Setting::Array => SettingText::Array,
            Setting::Table => SettingText::Table,
        }
    }
}

pub open spec fn entry_views(entries: Seq<(String, Setting)>) -> Seq<(Seq<char>, SettingText)> {
    entries.map_values(|e: (String, Setting)| (e.0@, e.1@))
}

pub open spec fn opt_entries(entries: Option<Vec<(String, Setting)>>) -> Option<
    Seq<(Seq<char>, SettingText)>,
> {
    match entries {
        Some(list) => Some(entry_views(list@)),
        None => None,
    }
}

/// The result of `toml::Table::from_str`: the entries at the top level of a TOML document, or
/// nothing if the text is no TOML.
pub uninterp spec fn toml_entries(text: Seq<char>) -> Option<Seq<(Seq<char>, SettingText)>>;

/// Whether no two entries have one key.
pub open spec fn keys_differ(entries: Seq<(Seq<char>, SettingText)>) -> bool {
    forall|i: int, j: int|
        0 <= i < entries.len() && 0 <= j < entries.len() && i != j ==> (#[trigger] entries[i]).0 != (
        #[trigger] entries[j]).0
}

/// `toml::Table::from_str` parses a TOML document; the entries depend on the text alone. The table
/// is a map: every key stands in it once. A float, a boolean, a date, an array or a table is told
/// apart, and what it holds is left out.
#[verifier::external_body]
fn parse_toml(text: &str) -> (entries: Option<Vec<(String, Setting)>>)
    ensures
        opt_entries(entries) == toml_entries(text@),
        opt_entries(entries) matches Some(list) ==> keys_differ(list),
{
    let table = text.parse::<toml::Table>().ok()?;
    let convert = |value: toml::Value| match value {
        toml::Value::String(s) => Setting::Text(s),
        toml::Value::Integer(n) => Setting::Integer(n),
        toml::Value::Float(_) => Setting::Float,
        toml::Value::Boolean(_) => Setting::Boolean,
        toml::Value::Datetime(_) => Setting::Datetime,
        toml::Value::Array(_) => Setting::Array,
        toml::Value::Table(_) => Setting::Table,
    };
    Some(table.into_iter().map(|(key, value)| (key, convert(value))).collect())
}

/// Settings, and the warnings about the file that they come from.
#[verifier::ext_equal]
pub struct Loading {
    pub settings: Settings,
    pub warnings: Seq<Seq<char>>,
}

/// A count in the file: what is not a count leaves the setting as it is.
pub open spec fn count_read(value: SettingText, kept: nat) -> (nat, bool) {
    match value {
        SettingText::Integer(n) => if 0 <= n <= usize::MAX {
            (n as nat, true)
        } else {
            (kept, false)
        },
        _ => (kept, false),
    }
}

pub open spec fn count_warning(key: Seq<char>) -> Seq<char> {
    "factsheet: config: '"@ + key + "' wants a non-negative integer; default kept"@
}

pub open spec fn unknown_warning(key: Seq<char>) -> Seq<char> {
    "factsheet: config: unknown key '"@ + key + "' ignored"@
}

/// Takes one entry of the file in.
pub open spec fn entry_applied(l: Loading, entry: (Seq<char>, SettingText)) -> Loading {
    let (key, value) = entry;
    if key == "user_instructions"@ {
        Loading {
            settings: Settings {
                user_instructions: match value {
                    SettingText::Text(s) => Ok(s),
                    _ => Err(Problem::NotAString),
                },
                ..l.settings
            },
            ..l
        }
    } else if key == "max_text"@ {
        let (n, good) = count_read(value, l.settings.max_text);
        Loading {
            settings: Settings { max_text: n, ..l.settings },
            warnings: if good {
                l.warnings
            } else {
                l.warnings.push(count_warning(key))
            },
        }
    } else if key == "hot_warn"@ {
        let (n, good) = count_read(value, l.settings.hot_warn);
        Loading {
            settings: Settings { hot_warn: n, ..l.settings },
            warnings: if good {
                l.warnings
            } else {
                l.warnings.push(count_warning(key))
            },
        }
    } else {
        Loading { warnings: l.warnings.push(unknown_warning(key)), ..l }
    }
}

/// Takes the entries of the file in, on top of the defaults.
pub open spec fn entries_applied(entries: Seq<(Seq<char>, SettingText)>) -> Loading
    decreases entries.len(),
{
    if entries.len() == 0 {
        Loading { settings: default_settings(), warnings: Seq::empty() }
    } else {
        entry_applied(entries_applied(entries.drop_last()), entries.last())
    }
}

pub open spec fn default_with(problem: Problem) -> Loading {
    Loading {
        settings: Settings { user_instructions: Err(problem), ..default_settings() },
        warnings: Seq::empty(),
    }
}

/// What the parsed file says.
pub open spec fn file_read(entries: Option<Seq<(Seq<char>, SettingText)>>) -> Loading {
    match entries {
        None => default_with(Problem::InvalidSyntax),
        Some(list) => entries_applied(list),
    }
}

/// The settings that a file gives, and the warnings about it.
#[derive(Debug)]
pub struct Loaded {
    pub config: Config,
    pub warnings: Vec<String>,
}

impl View for Loaded {
    type V = Loading;

    open spec fn view(&self) -> Loading {
        Loading { settings: self.config@, warnings: texts(self.warnings@) }
    }
}

/// The count that a value of the file stands for, or `default` with a warning.
pub fn count_or(key: &str, value: &Setting, default: usize) -> (count: (usize, Option<String>))
    ensures
        count.0 == count_read(value@, default as nat).0,
        match count.1 {
            None => count_read(value@, default as nat).1,
            Some(w) => !count_read(value@, default as nat).1 && w@ == count_warning(key@),
        },
{
    if let Setting::Integer(n) = value {
        if *n >= 0 && *n as u64 <= usize::MAX as u64 {
            return (*n as usize, None);
        }
    }
    let mut w = "factsheet: config: '".to_owned();
    w.append(key);
    w.append("' wants a non-negative integer; default kept");
    (default, Some(w))
}

fn apply_entry(loaded: Loaded, key: &str, value: Setting) -> (next: Loaded)
    ensures
        next@ == entry_applied(loaded@, (key@, value@)),
{
    let mut config = loaded.config;
    let mut warnings = loaded.warnings;
    if same(key, "user_instructions") {
        config.user_instructions = match value {
            Setting::Text(s) => Ok(s),
            _ => Err(Problem::NotAString),
        };
    } else if same(key, "max_text") {
        let (n, warning) = count_or(key, &value, config.max_text);
        config.max_text = n;
        if let Some(w) = warning {
            push_text(&mut warnings, w);
        }
    } else if same(key, "hot_warn") {
        let (n, warning) = count_or(key, &value, config.hot_warn);
        config.hot_warn = n;
        if let Some(w) = warning {
            push_text(&mut warnings, w);
        }
    } else {
        let mut w = "factsheet: config: unknown key '".to_owned();
        w.append(key);
        w.append("' ignored");
        push_text(&mut warnings, w);
    }
    Loaded { config, warnings }
}

/// The settings that a parsed file gives.
pub fn config_from(entries: Option<Vec<(String, Setting)>>) -> (loaded: Loaded)
    ensures
        loaded@ == file_read(opt_entries(entries)),
{
    let empty: Vec<String> = Vec::new();
    assert(texts(empty@) =~= Seq::<Seq<char>>::empty());
    let mut config = Config::default();
    match entries {
        None => {
            config.user_instructions = Err(Problem::InvalidSyntax);
            Loaded { config, warnings: empty }
        },
        Some(list) => {
            let ghost all = entry_views(list@);
            let mut loaded = Loaded { config, warnings: empty };
            assert(loaded@ =~= entries_applied(all.take(0)));
            for entry in it: list.into_iter()
                invariant
                    it.seq() == list@,
                    all == entry_views(list@),
                    loaded@ == entries_applied(all.take(it.index() as int)),
            {
                let ghost i = it.index() as int;
                assert(all[i] == (entry.0@, entry.1@));
                assert(all.take(i + 1).drop_last() =~= all.take(i));
                let (key, value) = entry;
                loaded = apply_entry(loaded, &key, value);
            }
            assert(all.take(all.len() as int) =~= all);
            loaded
        },
    }
}

/// What came of looking for the file.
#[derive(Debug)]
pub enum Source {
    /// There is no place for it.
    Nowhere,
    /// It was missing and has been created with the defaults.
    Created,
    /// It was missing and could not be created.
    NotCreated,
    /// It could not be read.
    Unreadable,
    /// Its contents.
    Text(String),
}

/// The settings for what came of looking for the file.
pub open spec fn source_read(source: Source) -> Loading {
    match source {
        Source::Nowhere | Source::Created => Loading {
            settings: default_settings(),
            warnings: Seq::empty(),
        },
        Source::NotCreated => default_with(Problem::CannotCreate),
        Source::Unreadable => default_with(Problem::CannotRead),
        Source::Text(text) => file_read(toml_entries(text@)),
    }
}

/// Loads the settings. A file that cannot be used leaves the defaults, with the problem in place
/// of the instructions.
pub fn load_config(source: &Source) -> (loaded: Loaded)
    ensures
        loaded@ == source_read(*source),
        source matches Source::Text(text) ==> match toml_entries(text@) {
            Some(list) => keys_differ(list) && loaded@.settings == settings_named(list),
            None => true,
        },
{
    let empty: Vec<String> = Vec::new();
    assert(texts(empty@) =~= Seq::<Seq<char>>::empty());
    let mut config = Config::default();
    match source {
        Source::Nowhere => Loaded { config, warnings: empty },
        Source::Created => Loaded { config, warnings: empty },
        Source::NotCreated => {
            config.user_instructions = Err(Problem::CannotCreate);
            Loaded { config, warnings: empty }
        },
        Source::Unreadable => {
            config.user_instructions = Err(Problem::CannotRead);
            Loaded { config, warnings: empty }
        },
        Source::Text(text) => {
            let entries = parse_toml(text);
            proof {
                if let Some(list) = toml_entries(text@) {
                    law_settings_by_key(list);
                }
            }
            config_from(entries)
        },
    }
}

// ---- where the file is ----

/// The directory under which the settings are kept.
#[derive(Debug, PartialEq, Eq, Structural, Clone, Copy)]
pub enum ConfigBase {
    /// The directory for settings that the environment names.
    XdgConfigHome,
    /// The directory `.config` in the home directory.
    HomeConfig,
    /// The directory for application data.
    AppData,
}

/// Chooses the directory for the settings from those that the environment names.
pub fn config_path(xdg_config_home: bool, home: bool, app_data: bool) -> (base: Option<ConfigBase>)
    ensures
        base == if xdg_config_home {
            Some(ConfigBase::XdgConfigHome)
        } else if home {
            Some(ConfigBase::HomeConfig)
        } else if app_data {
            Some(ConfigBase::AppData)
        } else {
            None
        },
{
    if xdg_config_home {
        Some(ConfigBase::XdgConfigHome)
    } else if home {
        Some(ConfigBase::HomeConfig)
    } else if app_data {
        Some(ConfigBase::AppData)
    } else {
        None
    }
}

// ---- what the file can change ----

/// Whether a key is one of the settings.
pub open spec fn is_known(key: Seq<char>) -> bool {
    key == "user_instructions"@ || key == "max_text"@ || key == "hot_warn"@
}

/// An unknown key changes no setting, wherever it stands.
pub proof fn law_unknown_key_ignored(
    before: Seq<(Seq<char>, SettingText)>,
    key: Seq<char>,
    value: SettingText,
    behind: Seq<(Seq<char>, SettingText)>,
)
    requires
        !is_known(key),
    ensures
        entries_applied(before.push((key, value)) + behind).settings == entries_applied(
            before + behind,
        ).settings,
    decreases behind.len(),
{
    let a = before.push((key, value)) + behind;
    let b = before + behind;
    if behind.len() == 0 {
        assert(a.drop_last() =~= before);
        assert(b =~= before);
    } else {
        law_unknown_key_ignored(before, key, value, behind.drop_last());
        assert(a.drop_last() =~= before.push((key, value)) + behind.drop_last());
        assert(b.drop_last() =~= before + behind.drop_last());
        assert(a.last() == behind.last() && b.last() == behind.last());
    }
}

/// Where nothing could be read, the counts are the defaults and the session is told why.
pub proof fn law_problem_keeps_defaults(problem: Problem)
    ensures
        default_with(problem).settings.max_text == 200,
        default_with(problem).settings.hot_warn == 40,
        default_with(problem).settings.user_instructions == Err::<Seq<char>, Problem>(problem),
{
}

/// The value of a key, if it is there.
pub open spec fn value_of(entries: Seq<(Seq<char>, SettingText)>, key: Seq<char>) -> Option<
    SettingText,
>
    decreases entries.len(),
{
    if entries.len() == 0 {
        None
    } else if entries.last().0 == key {
        Some(entries.last().1)
    } else {
        value_of(entries.drop_last(), key)
    }
}

/// A count as a file names it: the value of its key if that is a count, else the default.
pub open spec fn count_named(
    entries: Seq<(Seq<char>, SettingText)>,
    key: Seq<char>,
    default: nat,
) -> nat {
    match value_of(entries, key) {
        Some(SettingText::Integer(n)) if 0 <= n <= usize::MAX => n as nat,
        _ => default,
    }
}

/// The settings as a file names them.
pub open spec fn settings_named(entries: Seq<(Seq<char>, SettingText)>) -> Settings {
    Settings {
        max_text: count_named(entries, "max_text"@, 200),
        hot_warn: count_named(entries, "hot_warn"@, 40),
        user_instructions: match value_of(entries, "user_instructions"@) {
            None => Ok(Seq::empty()),
            Some(SettingText::Text(s)) => Ok(s),
            Some(_) => Err(Problem::NotAString),
        },
    }
}

/// The value of a key is what stands beside it, and there is none exactly if the key is missing.
proof fn lemma_value_of(entries: Seq<(Seq<char>, SettingText)>, key: Seq<char>)
    ensures
        match value_of(entries, key) {
            Some(value) => exists|i: int|
                0 <= i < entries.len() && #[trigger] entries[i] == (key, value),
            None => forall|i: int| 0 <= i < entries.len() ==> (#[trigger] entries[i]).0 != key,
        },
    decreases entries.len(),
{
    if entries.len() > 0 {
        let shorter = entries.drop_last();
        lemma_value_of(shorter, key);
        assert(forall|i: int| 0 <= i < shorter.len() ==> shorter[i] == #[trigger] entries[i]);
        if entries.last().0 == key {
            assert(entries[entries.len() - 1] == (key, entries.last().1));
        } else if let Some(value) = value_of(shorter, key) {
            let i = choose|i: int| 0 <= i < shorter.len() && #[trigger] shorter[i] == (key, value);
            assert(entries[i] == (key, value));
        }
    }
}

/// Every setting has the value of its entry, and the default where there is no entry or one of the
/// wrong type.
pub proof fn law_settings_by_key(entries: Seq<(Seq<char>, SettingText)>)
    requires
        keys_differ(entries),
    ensures
        entries_applied(entries).settings == settings_named(entries),
        forall|i: int|
            0 <= i < entries.len() ==> value_of(entries, (#[trigger] entries[i]).0) == Some(
                entries[i].1,
            ),
    decreases entries.len(),
{
    reveal_strlit("user_instructions");
    reveal_strlit("max_text");
    reveal_strlit("hot_warn");
    assert("user_instructions"@.len() != "max_text"@.len());
    assert("user_instructions"@.len() != "hot_warn"@.len());
    assert("max_text"@[0] != "hot_warn"@[0]);
    if entries.len() > 0 {
        let shorter = entries.drop_last();
        let (key, value) = entries.last();
        assert(forall|i: int| 0 <= i < shorter.len() ==> shorter[i] == #[trigger] entries[i]);
        law_settings_by_key(shorter);
        lemma_value_of(shorter, key);
        assert(value_of(shorter, key) is None) by {
            if let Some(old_value) = value_of(shorter, key) {
                let i = choose|i: int|
                    0 <= i < shorter.len() && #[trigger] shorter[i] == (key, old_value);
                assert(entries[i].0 != entries[entries.len() - 1].0);
            }
        }
        assert forall|i: int| 0 <= i < entries.len() implies value_of(
            entries,
            (#[trigger] entries[i]).0,
        ) == Some(entries[i].1) by {
            if i < shorter.len() {
                assert(entries[i].0 != entries[entries.len() - 1].0);
                assert(value_of(shorter, shorter[i].0) == Some(shorter[i].1));
            }
        }
    }
    assert(entries_applied(entries).settings =~= settings_named(entries));
}

} // verus!
