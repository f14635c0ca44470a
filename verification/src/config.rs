//! The plugin configuration boundary: parsing and validating `config.toml`.
//!
//! A missing file or an omitted key uses its default. Any unknown key, wrong type, or invalid
//! value makes the whole file invalid: the valid-looking parts are never applied.
use crate::text;
use crate::text::same_text;
use crate::theme;
use crate::theme::is_known;
use crate::width;
use vstd::prelude::*;

verus! {

/// Where the toggle action opens the sidebar.
#[derive(Clone, Copy, Debug, PartialEq, Eq, Structural)]
pub enum TogglePlacement {
    Split,
    Overlay,
    Zoomed,
    Tab,
}

impl TogglePlacement {
    /// The word for this placement in the configuration.
    pub open spec fn word(self) -> Seq<char> {
        match self {
            TogglePlacement::Split => "split"@,
            TogglePlacement::Overlay => "overlay"@,
            TogglePlacement::Zoomed => "zoomed"@,
            TogglePlacement::Tab => "tab"@,
        }
    }

    /// The word for this placement in the configuration.
    pub fn as_str(self) -> (r: &'static str)
        ensures
            r@ == self.word(),
    {
        match self {
            TogglePlacement::Split => "split",
            TogglePlacement::Overlay => "overlay",
            TogglePlacement::Zoomed => "zoomed",
            TogglePlacement::Tab => "tab",
        }
    }
}

/// Direction for split placement.
#[derive(Clone, Copy, Debug, PartialEq, Eq, Structural)]
pub enum ToggleDirection {
    Right,
    Down,
}

impl ToggleDirection {
    /// The word for this direction in the configuration.
    pub open spec fn word(self) -> Seq<char> {
        match self {
            ToggleDirection::Right => "right"@,
            ToggleDirection::Down => "down"@,
        }
    }

    /// The word for this direction in the configuration.
    pub fn as_str(self) -> (r: &'static str)
        ensures
            r@ == self.word(),
    {
        match self {
            ToggleDirection::Right => "right",
            ToggleDirection::Down => "down",
        }
    }
}

/// When a comment of the user persists to the shared on-disk store, making it visible to
/// the agent. Agent-authored comments are always store-resident regardless of this setting.
#[derive(Clone, Copy, Debug, PartialEq, Eq, Structural)]
pub enum CommentSync {
    Immediate,
    OnSend,
}

impl CommentSync {
    /// The word for this setting in the configuration.
    pub open spec fn word(self) -> Seq<char> {
        match self {
            CommentSync::Immediate => "immediate"@,
            CommentSync::OnSend => "on-send"@,
        }
    }

    /// The word for this setting in the configuration.
    pub fn as_str(self) -> (r: &'static str)
        ensures
            r@ == self.word(),
    {
        match self {
            CommentSync::Immediate => "immediate",
            CommentSync::OnSend => "on-send",
        }
    }
}

/// One validated snapshot of the plugin's `config.toml`.
#[derive(Clone, Debug, PartialEq, Eq)]
pub struct PluginConfig {
    theme: String,
    toggle_placement: TogglePlacement,
    toggle_direction: ToggleDirection,
    auto_open: bool,
    show_ignored: bool,
    comment_sync: CommentSync,
}

/// What a configuration says.
pub struct ConfigView {
    pub theme: Seq<char>,
    pub toggle_placement: TogglePlacement,
    pub toggle_direction: ToggleDirection,
    pub auto_open: bool,
    pub show_ignored: bool,
    pub comment_sync: CommentSync,
}

impl View for PluginConfig {
    type V = ConfigView;

    closed spec fn view(&self) -> ConfigView {
        ConfigView {
            theme: self.theme@,
            toggle_placement: self.toggle_placement,
            toggle_direction: self.toggle_direction,
            auto_open: self.auto_open,
            show_ignored: self.show_ignored,
            comment_sync: self.comment_sync,
        }
    }
}

/// The configuration where nothing is set. A fresh worktree has no plan yet, so the sidebar
/// does not open by itself.
pub open spec fn defaults() -> ConfigView {
    ConfigView {
        theme: theme::DEFAULT@,
        toggle_placement: TogglePlacement::Split,
        toggle_direction: ToggleDirection::Right,
        auto_open: false,
        show_ignored: false,
        comment_sync: CommentSync::Immediate,
    }
}

impl Default for PluginConfig {
    fn default() -> (r: PluginConfig)
        ensures
            r@ == defaults(),
    {
        PluginConfig {
            theme: theme::DEFAULT.to_owned(),
            toggle_placement: TogglePlacement::Split,
            toggle_direction: ToggleDirection::Right,
            auto_open: false,
            show_ignored: false,
            comment_sync: CommentSync::Immediate,
        }
    }
}

/// `serde_json::Value`, a JSON document.
#[verifier::external_type_specification]
#[verifier::external_body]
pub struct ExValue(serde_json::Value);

/// `toml::de::Error`, a syntax error of a TOML document.
#[verifier::external_type_specification]
#[verifier::external_body]
pub struct ExTomlError(toml::de::Error);

/// One member of a JSON object.
#[derive(Clone, Debug)]
pub enum Field {
    Text(String),
    Flag(bool),
}

/// What a member of a JSON object, or a setting of the configuration, holds.
pub enum FieldView {
    Text(Seq<char>),
    Flag(bool),
    /// A value of any other type.
    Other,
}

impl View for Field {
    type V = FieldView;

    open spec fn view(&self) -> FieldView {
        match *self {
            Field::Text(s) => FieldView::Text(s@),
            Field::Flag(b) => FieldView::Flag(b),
        }
    }
}

/// The members of a JSON object, by key.
pub uninterp spec fn json_members(v: serde_json::Value) -> Map<Seq<char>, FieldView>;

/// The first `n` of `fields` by key, where a later one replaces an earlier one of the same key.
pub open spec fn members_of(fields: Seq<(String, Field)>, n: int) -> Map<Seq<char>, FieldView>
    decreases n,
{
    if n <= 0 {
        Map::empty()
    } else {
        members_of(fields, n - 1).insert(fields[n - 1].0@, fields[n - 1].1@)
    }
}

/// Collects into `serde_json::Map`, as `serde_json::Value::Object`: an object with exactly the
/// given members, where the last of several with one key counts.
#[verifier::external_body]
pub(crate) fn json_object(fields: Vec<(String, Field)>) -> (r: serde_json::Value)
    ensures
        json_members(r) == members_of(fields@, fields@.len() as int),
{
    serde_json::Value::Object(fields.into_iter().map(|(key, field)| (key, match field {
        Field::Text(s) => serde_json::Value::String(s),
        Field::Flag(b) => serde_json::Value::Bool(b),
    })).collect())
}

impl ConfigView {
    /// The members of the machine-readable form.
    pub open spec fn members(self) -> Map<Seq<char>, FieldView> {
        map![
            "theme"@ => FieldView::Text(self.theme),
            "toggle_placement"@ => FieldView::Text(self.toggle_placement.word()),
            "toggle_direction"@ => FieldView::Text(self.toggle_direction.word()),
            "auto_open"@ => FieldView::Flag(self.auto_open),
            "show_ignored"@ => FieldView::Flag(self.show_ignored),
            "comment_sync"@ => FieldView::Text(self.comment_sync.word()),
        ]
    }
}

impl PluginConfig {
    pub fn theme(&self) -> (r: &str)
        ensures
            r@ == self@.theme,
    {
        self.theme.as_str()
    }

    pub fn toggle_placement(&self) -> (r: TogglePlacement)
        ensures
            r == self@.toggle_placement,
    {
        self.toggle_placement
    }

    pub fn toggle_direction(&self) -> (r: ToggleDirection)
        ensures
            r == self@.toggle_direction,
    {
        self.toggle_direction
    }

    pub fn auto_open(&self) -> (r: bool)
        ensures
            r == self@.auto_open,
    {
        self.auto_open
    }

    pub fn show_ignored(&self) -> (r: bool)
        ensures
            r == self@.show_ignored,
    {
        self.show_ignored
    }

    pub fn comment_sync(&self) -> (r: CommentSync)
        ensures
            r == self@.comment_sync,
    {
        self.comment_sync
    }

    /// Stable machine-readable output consumed by the shell entry points.
    pub fn to_json(&self) -> (r: serde_json::Value)
        ensures
            json_members(r) == self@.members(),
    {
        let fields: Vec<(String, Field)> = vec![
            ("theme".to_owned(), Field::Text(self.theme.clone())),
            ("toggle_placement".to_owned(), Field::Text(self.toggle_placement.as_str().to_owned())),
            ("toggle_direction".to_owned(), Field::Text(self.toggle_direction.as_str().to_owned())),
            ("auto_open".to_owned(), Field::Flag(self.auto_open)),
            ("show_ignored".to_owned(), Field::Flag(self.show_ignored)),
            ("comment_sync".to_owned(), Field::Text(self.comment_sync.as_str().to_owned())),
        ];
        proof {
            reveal_with_fuel(members_of, 7);
            assert(members_of(fields@, 6) =~= self@.members());
        }
        json_object(fields)
    }
}

/// A whole-file configuration failure. It keeps the path in the value so every entry point can
/// show the same actionable diagnostic.
#[derive(Clone, Debug, PartialEq, Eq)]
pub struct PluginConfigError {
    path: String,
    detail: String,
}

/// What a configuration failure says.
pub struct ErrorView {
    pub path: Seq<char>,
    pub detail: Seq<char>,
}

impl View for PluginConfigError {
    type V = ErrorView;

    closed spec fn view(&self) -> ErrorView {
        ErrorView { path: self.path@, detail: self.detail@ }
    }
}

impl PluginConfigError {
    fn new(path: &str, detail: String) -> (r: PluginConfigError)
        ensures
            r@ == (ErrorView { path: path@, detail: detail@ }),
    {
        PluginConfigError { path: path.to_owned(), detail }
    }

    /// The diagnostic: `config <path>: <detail>`.
    pub fn message(&self) -> (r: String)
        ensures
            r@ == "config "@ + self@.path + ": "@ + self@.detail,
    {
        let mut out: String = "config ".to_owned();
        out.append(self.path.as_str());
        out.append(": ");
        out.append(self.detail.as_str());
        assert(out@ =~= "config "@ + self@.path + ": "@ + self@.detail);
        out
    }
}

/// One value of the configuration file.
#[derive(Clone, Debug)]
pub enum Setting {
    Text(String),
    Flag(bool),
    /// A value of any other type.
    Other,
}

impl View for Setting {
    type V = FieldView;

    open spec fn view(&self) -> FieldView {
        match *self {
            Setting::Text(s) => FieldView::Text(s@),
            Setting::Flag(b) => FieldView::Flag(b),
            Setting::Other => FieldView::Other,
        }
    }
}

/// What each of `entries` holds.
pub open spec fn entries_view(entries: Seq<(String, Setting)>) -> Seq<(Seq<char>, FieldView)> {
    entries.map_values(|e: (String, Setting)| (e.0@, e.1@))
}

/// The top-level entries of a TOML document in the order in which its table lists them, or its
/// syntax error.
pub uninterp spec fn toml_entries(text: Seq<char>) -> Result<
    Seq<(Seq<char>, FieldView)>,
    toml::de::Error,
>;

/// The message of a TOML syntax error.
pub uninterp spec fn toml_message(error: toml::de::Error) -> Seq<char>;

/// A text in double quotes, escaped as for a Rust string literal.
pub uninterp spec fn quoted_text(s: Seq<char>) -> Seq<char>;

/// `str::parse` to a `toml::Table`, each entry told apart by whether its value is a string, a
/// boolean, or of another type.
#[verifier::external_body]
pub(crate) fn parse_toml(text: &str) -> (r: Result<Vec<(String, Setting)>, toml::de::Error>)
    ensures
        match r {
            Ok(entries) => toml_entries(text@) == Ok::<_, toml::de::Error>(
                entries_view(entries@),
            ),
            Err(error) => toml_entries(text@) == Err::<Seq<(Seq<char>, FieldView)>, _>(error),
        },
{
    let table: toml::Table = text.parse()?;
    Ok(table.into_iter().map(|(key, value)| (key, match value {
        toml::Value::String(s) => Setting::Text(s),
        toml::Value::Boolean(b) => Setting::Flag(b),
        _ => Setting::Other,
    })).collect())
}

/// `toml::de::Error::message`.
#[verifier::external_body]
pub(crate) fn message_of(error: &toml::de::Error) -> (r: String)
    ensures
        r@ == toml_message(*error),
{
    error.message().to_owned()
}

/// Whether every character of `s` is a printable ASCII character other than a quote mark or a
/// backslash.
pub open spec fn plain(s: Seq<char>) -> bool {
    width::printable(s) && !s.contains('"') && !s.contains('\'') && !s.contains('\\')
}

/// The `Debug` form of a string, as `format!("{s:?}")` gives it.
///
/// A string that needs no escapes comes back as it is, between two double quotes.
#[verifier::external_body]
pub(crate) fn quoted(s: &str) -> (r: String)
    ensures
        r@ == quoted_text(s@),
        plain(s@) ==> r@ == seq!['"'] + s@ + seq!['"'],
{
    format!("{s:?}")
}

/// The keys that the configuration file may hold.
pub open spec fn config_keys() -> Seq<Seq<char>> {
    seq![
        "theme"@,
        "toggle_placement"@,
        "toggle_direction"@,
        "auto_open"@,
        "show_ignored"@,
        "comment_sync"@,
    ]
}

/// The value of the first entry with `key`.
pub open spec fn setting_of(entries: Seq<(Seq<char>, FieldView)>, key: Seq<char>) -> Option<
    FieldView,
>
    decreases entries.len(),
{
    if entries.len() == 0 {
        None
    } else if entries[0].0 == key {
        Some(entries[0].1)
    } else {
        setting_of(entries.skip(1), key)
    }
}

/// The first key that is none of [`config_keys`].
pub open spec fn first_unknown(entries: Seq<(Seq<char>, FieldView)>) -> Option<Seq<char>>
    decreases entries.len(),
{
    if entries.len() == 0 {
        None
    } else if !config_keys().contains(entries[0].0) {
        Some(entries[0].0)
    } else {
        first_unknown(entries.skip(1))
    }
}

/// The failure for a key that is not known.
pub open spec fn unknown_key(key: Seq<char>) -> Seq<char> {
    "unknown key "@ + quoted_text(key) + "; expected one of "@ + text::joined(
        config_keys(),
        ", "@,
    )
}

/// The failure for a value that `key` does not take.
pub open spec fn invalid_value(key: Seq<char>, expected: Seq<char>) -> Seq<char> {
    "invalid value for `"@ + key + "`; expected "@ + expected
}

/// The failure for a theme that is not built in.
pub open spec fn unknown_theme(name: Seq<char>) -> Seq<char> {
    "invalid value for `theme`: "@ + quoted_text(name) + "; expected a built-in theme name"@
}

/// The theme that the entries set, or why it is invalid.
pub open spec fn theme_setting(entries: Seq<(Seq<char>, FieldView)>) -> Result<
    Seq<char>,
    Seq<char>,
> {
    match setting_of(entries, "theme"@) {
        None => Ok(theme::DEFAULT@),
        Some(FieldView::Text(name)) => if theme::known(name) {
            Ok(name)
        } else {
            Err(unknown_theme(name))
        },
        Some(_) => Err(invalid_value("theme"@, "a built-in theme name"@)),
    }
}

/// The placement that the entries set, or why it is invalid.
pub open spec fn placement_setting(entries: Seq<(Seq<char>, FieldView)>) -> Result<
    TogglePlacement,
    Seq<char>,
> {
    match setting_of(entries, "toggle_placement"@) {
        None => Ok(TogglePlacement::Split),
        Some(FieldView::Text(word)) => if word == "split"@ {
            Ok(TogglePlacement::Split)
        } else if word == "overlay"@ {
            Ok(TogglePlacement::Overlay)
        } else if word == "zoomed"@ {
            Ok(TogglePlacement::Zoomed)
        } else if word == "tab"@ {
            Ok(TogglePlacement::Tab)
        } else {
            Err(invalid_value("toggle_placement"@, "one of split, overlay, zoomed, tab"@))
        },
        Some(_) => Err(invalid_value("toggle_placement"@, "one of split, overlay, zoomed, tab"@)),
    }
}

/// The direction that the entries set, or why it is invalid.
pub open spec fn direction_setting(entries: Seq<(Seq<char>, FieldView)>) -> Result<
    ToggleDirection,
    Seq<char>,
> {
    match setting_of(entries, "toggle_direction"@) {
        None => Ok(ToggleDirection::Right),
        Some(FieldView::Text(word)) => if word == "right"@ {
            Ok(ToggleDirection::Right)
        } else if word == "down"@ {
            Ok(ToggleDirection::Down)
        } else {
            Err(invalid_value("toggle_direction"@, "one of right, down"@))
        },
        Some(_) => Err(invalid_value("toggle_direction"@, "one of right, down"@)),
    }
}

/// The flag that the entries set for `key`, or why it is invalid.
pub open spec fn flag_setting(entries: Seq<(Seq<char>, FieldView)>, key: Seq<char>) -> Result<
    bool,
    Seq<char>,
> {
    match setting_of(entries, key) {
        None => Ok(false),
        Some(FieldView::Flag(b)) => Ok(b),
        Some(_) => Err(invalid_value(key, "a boolean"@)),
    }
}

/// The comment sync that the entries set, or why it is invalid.
pub open spec fn sync_setting(entries: Seq<(Seq<char>, FieldView)>) -> Result<
    CommentSync,
    Seq<char>,
> {
    match setting_of(entries, "comment_sync"@) {
        None => Ok(CommentSync::Immediate),
        Some(FieldView::Text(word)) => if word == "immediate"@ {
            Ok(CommentSync::Immediate)
        } else if word == "on-send"@ {
            Ok(CommentSync::OnSend)
        } else {
            Err(invalid_value("comment_sync"@, "one of immediate, on-send"@))
        },
        Some(_) => Err(invalid_value("comment_sync"@, "one of immediate, on-send"@)),
    }
}

/// The configuration that the entries of a file make, or why the file is invalid: the first
/// unknown key, else the first setting that is invalid.
pub open spec fn config_of(entries: Seq<(Seq<char>, FieldView)>) -> Result<ConfigView, Seq<char>> {
    match first_unknown(entries) {
        Some(key) => Err(unknown_key(key)),
        None => match theme_setting(entries) {
            Err(e) => Err(e),
            Ok(theme) => match placement_setting(entries) {
                Err(e) => Err(e),
                Ok(toggle_placement) => match direction_setting(entries) {
                    Err(e) => Err(e),
                    Ok(toggle_direction) => match flag_setting(entries, "auto_open"@) {
                        Err(e) => Err(e),
                        Ok(auto_open) => match flag_setting(entries, "show_ignored"@) {
                            Err(e) => Err(e),
                            Ok(show_ignored) => match sync_setting(entries) {
                                Err(e) => Err(e),
                                Ok(comment_sync) => Ok(
                                    ConfigView {
                                        theme,
                                        toggle_placement,
                                        toggle_direction,
                                        auto_open,
                                        show_ignored,
                                        comment_sync,
                                    },
                                ),
                            },
                        },
                    },
                },
            },
        },
    }
}

/// The configuration that a file with this text makes, or why it is invalid.
pub open spec fn config_of_text(text: Seq<char>) -> Result<ConfigView, Seq<char>> {
    match toml_entries(text) {
        Ok(entries) => config_of(entries),
        Err(error) => Err("syntax error: "@ + toml_message(error)),
    }
}

/// What came of reading the configuration file.
#[derive(Clone, Debug)]
pub enum ConfigRead {
    /// There is no such file.
    Missing,
    /// Reading it failed, and why.
    Failed(String),
    /// Its text.
    Text(String),
}

/// The configuration that follows from what came of reading the file, or why it is invalid.
pub open spec fn config_of_read(file: ConfigRead) -> Result<ConfigView, Seq<char>> {
    match file {
        ConfigRead::Missing => Ok(defaults()),
        ConfigRead::Failed(why) => Err("read failed: "@ + why@),
        ConfigRead::Text(text) => config_of_text(text@),
    }
}

/// Whether `r` is `expected`, where a failure names `path`.
pub open spec fn is_outcome(
    r: Result<PluginConfig, PluginConfigError>,
    path: Seq<char>,
    expected: Result<ConfigView, Seq<char>>,
) -> bool {
    match (r, expected) {
        (Ok(config), Ok(view)) => config@ == view,
        (Err(error), Err(detail)) => error@ == (ErrorView { path, detail }),
        _ => false,
    }
}

fn find_setting<'a>(entries: &'a Vec<(String, Setting)>, key: &str) -> (r: Option<&'a Setting>)
    ensures
        match r {
            Some(s) => setting_of(entries_view(entries@), key@) == Some(s@),
            None => setting_of(entries_view(entries@), key@) is None,
        },
{
    let ghost view = entries_view(entries@);
    let mut i: usize = 0;
    assert(view.skip(0) =~= view);
    while i < entries.len()
        invariant
            i <= entries@.len(),
            view == entries_view(entries@),
            setting_of(view.skip(i as int), key@) == setting_of(view, key@),
        decreases entries@.len() - i,
    {
        assert(view.skip(i as int)[0] == view[i as int]);
        assert(view.skip(i as int).skip(1) =~= view.skip(i + 1));
        assert(view[i as int] == (entries@[i as int].0@, entries@[i as int].1@));
        if same_text(entries[i].0.as_str(), key) {
            return Some(&entries[i].1);
        }
        i += 1;
    }
    None
}

fn is_config_key(key: &str) -> (r: bool)
    ensures
        r == config_keys().contains(key@),
{
    let r: bool = same_text(key, "theme") || same_text(key, "toggle_placement") || same_text(
        key,
        "toggle_direction",
    ) || same_text(key, "auto_open") || same_text(key, "show_ignored") || same_text(
        key,
        "comment_sync",
    );
    proof {
        let keys = config_keys();
        assert(keys[0] == "theme"@ && keys[1] == "toggle_placement"@ && keys[2]
            == "toggle_direction"@ && keys[3] == "auto_open"@ && keys[4] == "show_ignored"@
            && keys[5] == "comment_sync"@);
        if keys.contains(key@) {
            let k = choose|k: int| 0 <= k < keys.len() && keys[k] == key@;
            assert(k == 0 || k == 1 || k == 2 || k == 3 || k == 4 || k == 5);
        }
    }
    r
}

fn find_unknown<'a>(entries: &'a Vec<(String, Setting)>) -> (r: Option<&'a str>)
    ensures
        match r {
            Some(key) => first_unknown(entries_view(entries@)) == Some(key@),
            None => first_unknown(entries_view(entries@)) is None,
        },
{
    let ghost view = entries_view(entries@);
    let mut i: usize = 0;
    assert(view.skip(0) =~= view);
    while i < entries.len()
        invariant
            i <= entries@.len(),
            view == entries_view(entries@),
            first_unknown(view.skip(i as int)) == first_unknown(view),
        decreases entries@.len() - i,
    {
        assert(view.skip(i as int)[0] == view[i as int]);
        assert(view.skip(i as int).skip(1) =~= view.skip(i + 1));
        assert(view[i as int] == (entries@[i as int].0@, entries@[i as int].1@));
        if !is_config_key(entries[i].0.as_str()) {
            return Some(entries[i].0.as_str());
        }
        i += 1;
    }
    None
}

fn value_error(key: &str, expected: &str) -> (r: String)
    ensures
        r@ == invalid_value(key@, expected@),
{
    let mut out: String = "invalid value for `".to_owned();
    out.append(key);
    out.append("`; expected ");
    out.append(expected);
    assert(out@ =~= invalid_value(key@, expected@));
    out
}

fn unknown_key_error(key: &str) -> (r: String)
    ensures
        r@ == unknown_key(key@),
{
    let mut out: String = "unknown key ".to_owned();
    let q: String = quoted(key);
    out.append(q.as_str());
    out.append("; expected one of ");
    let keys: Vec<String> = vec![
        "theme".to_owned(),
        "toggle_placement".to_owned(),
        "toggle_direction".to_owned(),
        "auto_open".to_owned(),
        "show_ignored".to_owned(),
        "comment_sync".to_owned(),
    ];
    assert(text::contents(keys@) =~= config_keys());
    let all: String = text::join_strings(&keys, ", ");
    out.append(all.as_str());
    assert(out@ =~= unknown_key(key@));
    out
}

fn read_theme(entries: &Vec<(String, Setting)>) -> (r: Result<String, String>)
    ensures
        match r {
            Ok(name) => theme_setting(entries_view(entries@)) == Ok::<_, Seq<char>>(name@),
            Err(e) => theme_setting(entries_view(entries@)) == Err::<Seq<char>, _>(e@),
        },
{
    match find_setting(entries, "theme") {
        None => Ok(theme::DEFAULT.to_owned()),
        Some(Setting::Text(name)) => if is_known(name.as_str()) {
            Ok(name.clone())
        } else {
            let mut out: String = "invalid value for `theme`: ".to_owned();
            let q: String = quoted(name.as_str());
            out.append(q.as_str());
            out.append("; expected a built-in theme name");
            assert(out@ =~= unknown_theme(name@));
            Err(out)
        },
        Some(_) => Err(value_error("theme", "a built-in theme name")),
    }
}

fn read_placement(entries: &Vec<(String, Setting)>) -> (r: Result<TogglePlacement, String>)
    ensures
        match r {
            Ok(p) => placement_setting(entries_view(entries@)) == Ok::<_, Seq<char>>(p),
            Err(e) => placement_setting(entries_view(entries@)) == Err::<TogglePlacement, _>(e@),
        },
{
    match find_setting(entries, "toggle_placement") {
        None => Ok(TogglePlacement::Split),
        Some(Setting::Text(word)) => if same_text(word.as_str(), "split") {
            Ok(TogglePlacement::Split)
        } else if same_text(word.as_str(), "overlay") {
            Ok(TogglePlacement::Overlay)
        } else if same_text(word.as_str(), "zoomed") {
            Ok(TogglePlacement::Zoomed)
        } else if same_text(word.as_str(), "tab") {
            Ok(TogglePlacement::Tab)
        } else {
            Err(value_error("toggle_placement", "one of split, overlay, zoomed, tab"))
        },
        Some(_) => Err(value_error("toggle_placement", "one of split, overlay, zoomed, tab")),
    }
}

fn read_direction(entries: &Vec<(String, Setting)>) -> (r: Result<ToggleDirection, String>)
    ensures
        match r {
            Ok(d) => direction_setting(entries_view(entries@)) == Ok::<_, Seq<char>>(d),
            Err(e) => direction_setting(entries_view(entries@)) == Err::<ToggleDirection, _>(e@),
        },
{
    match find_setting(entries, "toggle_direction") {
        None => Ok(ToggleDirection::Right),
        Some(Setting::Text(word)) => if same_text(word.as_str(), "right") {
            Ok(ToggleDirection::Right)
        } else if same_text(word.as_str(), "down") {
            Ok(ToggleDirection::Down)
        } else {
            Err(value_error("toggle_direction", "one of right, down"))
        },
        Some(_) => Err(value_error("toggle_direction", "one of right, down")),
    }
}

fn read_flag(entries: &Vec<(String, Setting)>, key: &str) -> (r: Result<bool, String>)
    ensures
        match r {
            Ok(b) => flag_setting(entries_view(entries@), key@) == Ok::<_, Seq<char>>(b),
            Err(e) => flag_setting(entries_view(entries@), key@) == Err::<bool, _>(e@),
        },
{
    match find_setting(entries, key) {
        None => Ok(false),
        Some(Setting::Flag(b)) => Ok(*b),
        Some(_) => Err(value_error(key, "a boolean")),
    }
}

fn read_sync(entries: &Vec<(String, Setting)>) -> (r: Result<CommentSync, String>)
    ensures
        match r {
            Ok(s) => sync_setting(entries_view(entries@)) == Ok::<_, Seq<char>>(s),
            Err(e) => sync_setting(entries_view(entries@)) == Err::<CommentSync, _>(e@),
        },
{
    match find_setting(entries, "comment_sync") {
        None => Ok(CommentSync::Immediate),
        Some(Setting::Text(word)) => if same_text(word.as_str(), "immediate") {
            Ok(CommentSync::Immediate)
        } else if same_text(word.as_str(), "on-send") {
            Ok(CommentSync::OnSend)
        } else {
            Err(value_error("comment_sync", "one of immediate, on-send"))
        },
        Some(_) => Err(value_error("comment_sync", "one of immediate, on-send")),
    }
}

/// The configuration that the entries of the file at `path` make, or the failure of the whole
/// file.
pub fn config_from_entries(path: &str, entries: &Vec<(String, Setting)>) -> (r: Result<
    PluginConfig,
    PluginConfigError,
>)
    ensures
        is_outcome(r, path@, config_of(entries_view(entries@))),
{
    if let Some(key) = find_unknown(entries) {
        return Err(PluginConfigError::new(path, unknown_key_error(key)));
    }
    let theme: String = match read_theme(entries) {
        Ok(theme) => theme,
        Err(e) => {
            return Err(PluginConfigError::new(path, e));
        },
    };
    let toggle_placement: TogglePlacement = match read_placement(entries) {
        Ok(p) => p,
        Err(e) => {
            return Err(PluginConfigError::new(path, e));
        },
    };
    let toggle_direction: ToggleDirection = match read_direction(entries) {
        Ok(d) => d,
        Err(e) => {
            return Err(PluginConfigError::new(path, e));
        },
    };
    let auto_open: bool = match read_flag(entries, "auto_open") {
        Ok(b) => b,
        Err(e) => {
            return Err(PluginConfigError::new(path, e));
        },
    };
    let show_ignored: bool = match read_flag(entries, "show_ignored") {
        Ok(b) => b,
        Err(e) => {
            return Err(PluginConfigError::new(path, e));
        },
    };
    let comment_sync: CommentSync = match read_sync(entries) {
        Ok(s) => s,
        Err(e) => {
            return Err(PluginConfigError::new(path, e));
        },
    };
    Ok(
        PluginConfig {
            theme,
            toggle_placement,
            toggle_direction,
            auto_open,
            show_ignored,
            comment_sync,
        },
    )
}

/// The configuration that the text of the file at `path` makes, or the failure of the whole
/// file.
pub fn parse_plugin_config(path: &str, text: &str) -> (r: Result<PluginConfig, PluginConfigError>)
    ensures
        is_outcome(r, path@, config_of_text(text@)),
{
    match parse_toml(text) {
        Ok(entries) => config_from_entries(path, &entries),
        Err(error) => {
            let mut out: String = "syntax error: ".to_owned();
            let message: String = message_of(&error);
            out.append(message.as_str());
            assert(out@ =~= "syntax error: "@ + toml_message(error));
            Err(PluginConfigError::new(path, out))
        },
    }
}

/// One plugin config snapshot from what came of reading the file at `path`.
pub fn plugin_config_in(path: &str, file: ConfigRead) -> (r: Result<
    PluginConfig,
    PluginConfigError,
>)
    ensures
        is_outcome(r, path@, config_of_read(file)),
{
    match file {
        ConfigRead::Missing => Ok(PluginConfig::default()),
        ConfigRead::Failed(why) => {
            let mut out: String = "read failed: ".to_owned();
            out.append(why.as_str());
            assert(out@ =~= "read failed: "@ + why@);
            Err(PluginConfigError::new(path, out))
        },
        ConfigRead::Text(text) => parse_plugin_config(path, text.as_str()),
    }
}

/// One plugin config snapshot: without a configuration directory this is standalone mode, which
/// uses the defaults; a configured directory always names its file.
pub fn plugin_config(file: Option<(String, ConfigRead)>) -> (r: Result<
    PluginConfig,
    PluginConfigError,
>)
    ensures
        match file {
            None => r matches Ok(config) && config@ == defaults(),
            Some((path, read)) => is_outcome(r, path@, config_of_read(read)),
        },
{
    match file {
        None => Ok(PluginConfig::default()),
        Some((path, read)) => plugin_config_in(path.as_str(), read),
    }
}

/// A file is valid exactly where it holds no unknown key and each of its settings is valid; one
/// bad entry fails the whole file.
pub proof fn law_one_bad_entry_fails_the_file(entries: Seq<(Seq<char>, FieldView)>)
    ensures
        config_of(entries) is Ok <==> {
            &&& forall|i: int|
                0 <= i < entries.len() ==> config_keys().contains((#[trigger] entries[i]).0)
            &&& theme_setting(entries) is Ok
            &&& placement_setting(entries) is Ok
            &&& direction_setting(entries) is Ok
            &&& flag_setting(entries, "auto_open"@) is Ok
            &&& flag_setting(entries, "show_ignored"@) is Ok
            &&& sync_setting(entries) is Ok
        },
{
    lemma_first_unknown(entries);
}

proof fn lemma_first_unknown(entries: Seq<(Seq<char>, FieldView)>)
    ensures
        match first_unknown(entries) {
            Some(key) => !config_keys().contains(key) && exists|i: int|
                0 <= i < entries.len() && (#[trigger] entries[i]).0 == key,
            None => forall|i: int|
                0 <= i < entries.len() ==> config_keys().contains((#[trigger] entries[i]).0),
        },
    decreases entries.len(),
{
    if entries.len() > 0 {
        let rest = entries.skip(1);
        lemma_first_unknown(rest);
        assert forall|i: int| 1 <= i < entries.len() implies #[trigger] entries[i] == rest[i
            - 1] by {}
        if config_keys().contains(entries[0].0) && first_unknown(rest) is Some {
            let key = first_unknown(rest)->0;
            let i = choose|i: int| 0 <= i < rest.len() && (#[trigger] rest[i]).0 == key;
            assert(entries[i + 1].0 == key);
        }
    }
}

/// In a valid file each omitted key keeps its default.
pub proof fn law_omitted_keys_keep_their_defaults(entries: Seq<(Seq<char>, FieldView)>)
    ensures
        config_of(entries) matches Ok(config) ==> {
            &&& setting_of(entries, "theme"@) is None ==> config.theme == defaults().theme
            &&& setting_of(entries, "toggle_placement"@) is None ==> config.toggle_placement
                == defaults().toggle_placement
            &&& setting_of(entries, "toggle_direction"@) is None ==> config.toggle_direction
                == defaults().toggle_direction
            &&& setting_of(entries, "auto_open"@) is None ==> config.auto_open
                == defaults().auto_open
            &&& setting_of(entries, "show_ignored"@) is None ==> config.show_ignored
                == defaults().show_ignored
            &&& setting_of(entries, "comment_sync"@) is None ==> config.comment_sync
                == defaults().comment_sync
        },
{
}

/// The theme of a valid file is always a built-in one.
pub proof fn law_valid_theme_is_known(entries: Seq<(Seq<char>, FieldView)>)
    ensures
        config_of(entries) matches Ok(config) ==> theme::known(config.theme),
{
    theme::law_default_theme_is_known();
}

/// The entries of a file that sets every key to what `config` says.
pub open spec fn complete_entries(config: ConfigView) -> Seq<(Seq<char>, FieldView)> {
    seq![
        ("auto_open"@, FieldView::Flag(config.auto_open)),
        ("comment_sync"@, FieldView::Text(config.comment_sync.word())),
        ("show_ignored"@, FieldView::Flag(config.show_ignored)),
        ("theme"@, FieldView::Text(config.theme)),
        ("toggle_direction"@, FieldView::Text(config.toggle_direction.word())),
        ("toggle_placement"@, FieldView::Text(config.toggle_placement.word())),
    ]
}

proof fn lemma_keys_differ()
    ensures
        "theme"@.len() == 5,
        "auto_open"@.len() == 9,
        "comment_sync"@.len() == 12,
        "show_ignored"@.len() == 12,
        "toggle_direction"@.len() == 16,
        "toggle_placement"@.len() == 16,
        "comment_sync"@[0] == 'c',
        "show_ignored"@[0] == 's',
        "toggle_direction"@[7] == 'd',
        "toggle_placement"@[7] == 'p',
{
    reveal_strlit("theme");
    reveal_strlit("auto_open");
    reveal_strlit("comment_sync");
    reveal_strlit("show_ignored");
    reveal_strlit("toggle_direction");
    reveal_strlit("toggle_placement");
}

proof fn lemma_words_differ()
    ensures
        "split"@.len() == 5,
        "overlay"@.len() == 7,
        "zoomed"@.len() == 6,
        "tab"@.len() == 3,
        "right"@.len() == 5,
        "down"@.len() == 4,
        "immediate"@.len() == 9,
        "on-send"@.len() == 7,
{
    reveal_strlit("split");
    reveal_strlit("overlay");
    reveal_strlit("zoomed");
    reveal_strlit("tab");
    reveal_strlit("right");
    reveal_strlit("down");
    reveal_strlit("immediate");
    reveal_strlit("on-send");
}

/// A file that sets every key is read as exactly what it says, whatever that is: each word names
/// the value that it is written for.
pub proof fn law_complete_file_reads_back(config: ConfigView)
    requires
        theme::known(config.theme),
    ensures
        config_of(complete_entries(config)) == Ok::<_, Seq<char>>(config),
{
    let e = complete_entries(config);
    let keys = config_keys();
    lemma_keys_differ();
    lemma_words_differ();
    assert(keys[0] == "theme"@ && keys[1] == "toggle_placement"@ && keys[2] == "toggle_direction"@
        && keys[3] == "auto_open"@ && keys[4] == "show_ignored"@ && keys[5] == "comment_sync"@);
    let (e1, e2, e3, e4, e5) = (e.skip(1), e.skip(2), e.skip(3), e.skip(4), e.skip(5));
    assert(e1.skip(1) =~= e2 && e2.skip(1) =~= e3 && e3.skip(1) =~= e4 && e4.skip(1) =~= e5);
    assert(e5.skip(1).len() == 0);
    reveal_with_fuel(setting_of, 7);
    reveal_with_fuel(first_unknown, 8);
    assert(setting_of(e, "auto_open"@) == Some(FieldView::Flag(config.auto_open)));
    assert(setting_of(e, "comment_sync"@) == Some(FieldView::Text(config.comment_sync.word())));
    assert(setting_of(e, "show_ignored"@) == Some(FieldView::Flag(config.show_ignored)));
    assert(setting_of(e, "theme"@) == Some(FieldView::Text(config.theme)));
    assert(setting_of(e, "toggle_direction"@) == Some(
        FieldView::Text(config.toggle_direction.word()),
    ));
    assert(setting_of(e, "toggle_placement"@) == Some(
        FieldView::Text(config.toggle_placement.word()),
    ));
    assert(first_unknown(e) is None);
}

/// Two placements with the same word are the same, and so are two directions and two sync
/// settings.
pub proof fn law_words_tell_settings_apart(
    p: TogglePlacement,
    q: TogglePlacement,
    d: ToggleDirection,
    f: ToggleDirection,
    s: CommentSync,
    t: CommentSync,
)
    ensures
        p.word() == q.word() ==> p == q,
        d.word() == f.word() ==> d == f,
        s.word() == t.word() ==> s == t,
{
    lemma_words_differ();
}

/// Whether `value` is one that `key` takes, where `key` is a key of the configuration at all.
pub open spec fn takes(key: Seq<char>, value: FieldView) -> bool {
    let is_word = |word: Seq<char>| value == FieldView::Text(word);
    ||| key == "theme"@ && value is Text && theme::known(value->Text_0)
    ||| key == "toggle_placement"@ && (is_word("split"@) || is_word("overlay"@) || is_word(
        "zoomed"@,
    ) || is_word("tab"@))
    ||| key == "toggle_direction"@ && (is_word("right"@) || is_word("down"@))
    ||| key == "auto_open"@ && value is Flag
    ||| key == "show_ignored"@ && value is Flag
    ||| key == "comment_sync"@ && (is_word("immediate"@) || is_word("on-send"@))
}

/// Whether one of `entries` has the key `key`.
pub open spec fn sets(entries: Seq<(Seq<char>, FieldView)>, key: Seq<char>) -> bool {
    exists|i: int| 0 <= i < entries.len() && (#[trigger] entries[i]).0 == key
}

/// Whether no two of `entries` have the same key.
pub open spec fn distinct(entries: Seq<(Seq<char>, FieldView)>) -> bool {
    forall|i: int, j: int|
        0 <= i < j < entries.len() ==> (#[trigger] entries[i]).0 != (#[trigger] entries[j]).0
}

proof fn lemma_setting_of(entries: Seq<(Seq<char>, FieldView)>, key: Seq<char>)
    ensures
        match setting_of(entries, key) {
            Some(v) => exists|i: int|
                0 <= i < entries.len() && #[trigger] entries[i] == (key, v) && forall|k: int|
                    0 <= k < i ==> (#[trigger] entries[k]).0 != key,
            None => forall|i: int| 0 <= i < entries.len() ==> (#[trigger] entries[i]).0 != key,
        },
    decreases entries.len(),
{
    if entries.len() > 0 {
        let rest = entries.skip(1);
        lemma_setting_of(rest, key);
        assert(forall|i: int| 1 <= i < entries.len() ==> #[trigger] entries[i] == rest[i - 1]);
        if entries[0].0 == key {
            assert(entries[0] == (key, entries[0].1));
        } else if setting_of(rest, key) is Some {
            let v = setting_of(rest, key)->0;
            let i = choose|i: int|
                0 <= i < rest.len() && #[trigger] rest[i] == (key, v) && forall|k: int|
                    0 <= k < i ==> (#[trigger] rest[k]).0 != key;
            assert(entries[i + 1] == (key, v));
            assert forall|k: int| 0 <= k < i + 1 implies (#[trigger] entries[k]).0 != key by {
                if k > 0 {
                    assert(rest[k - 1].0 != key);
                }
            }
        }
    }
}

proof fn lemma_setting_at(entries: Seq<(Seq<char>, FieldView)>, i: int)
    requires
        distinct(entries),
        0 <= i < entries.len(),
    ensures
        setting_of(entries, entries[i].0) == Some(entries[i].1),
{
    let key = entries[i].0;
    lemma_setting_of(entries, key);
    assert(setting_of(entries, key) is Some);
    let v = setting_of(entries, key)->0;
    let j = choose|j: int|
        0 <= j < entries.len() && #[trigger] entries[j] == (key, v) && forall|k: int|
            0 <= k < j ==> (#[trigger] entries[k]).0 != key;
    if i < j {
        assert(entries[i].0 != key);
    } else if j < i {
        assert(entries[j].0 != entries[i].0);
    }
}

proof fn lemma_known_keys(key: Seq<char>)
    ensures
        config_keys().contains(key) <==> key == "theme"@ || key == "toggle_placement"@ || key
            == "toggle_direction"@ || key == "auto_open"@ || key == "show_ignored"@ || key
            == "comment_sync"@,
{
    let keys = config_keys();
    assert(keys[0] == "theme"@ && keys[1] == "toggle_placement"@ && keys[2] == "toggle_direction"@
        && keys[3] == "auto_open"@ && keys[4] == "show_ignored"@ && keys[5] == "comment_sync"@);
}

/// A file is valid just where each of its entries is: one unknown key, one value of the wrong type
/// or one word that its key does not take makes the whole file invalid, and nothing else does.
pub proof fn law_a_file_is_valid_where_each_entry_is(entries: Seq<(Seq<char>, FieldView)>)
    requires
        distinct(entries),
    ensures
        config_of(entries) is Ok <==> forall|i: int|
            0 <= i < entries.len() ==> takes((#[trigger] entries[i]).0, entries[i].1),
{
    law_one_bad_entry_fails_the_file(entries);
    lemma_keys_differ();
    if config_of(entries) is Ok {
        assert forall|i: int| 0 <= i < entries.len() implies takes(
            (#[trigger] entries[i]).0,
            entries[i].1,
        ) by {
            lemma_setting_at(entries, i);
            lemma_known_keys(entries[i].0);
            assert(config_keys().contains(entries[i].0));
        }
    }
    if forall|i: int|
        0 <= i < entries.len() ==> takes((#[trigger] entries[i]).0, entries[i].1) {
        assert forall|i: int| 0 <= i < entries.len() implies config_keys().contains(
            (#[trigger] entries[i]).0,
        ) by {
            lemma_known_keys(entries[i].0);
            assert(takes(entries[i].0, entries[i].1));
        }
        lemma_setting_of(entries, "theme"@);
        lemma_setting_of(entries, "toggle_placement"@);
        lemma_setting_of(entries, "toggle_direction"@);
        lemma_setting_of(entries, "auto_open"@);
        lemma_setting_of(entries, "show_ignored"@);
        lemma_setting_of(entries, "comment_sync"@);
    }
}

/// In a valid file each entry sets what its key names to what its value says, and no entry sets
/// anything else.
pub proof fn law_entries_set_what_they_name(entries: Seq<(Seq<char>, FieldView)>, i: int)
    requires
        distinct(entries),
        config_of(entries) is Ok,
        0 <= i < entries.len(),
    ensures
        ({
            let c = config_of(entries)->Ok_0;
            let (key, value) = entries[i];
            &&& key == "theme"@ ==> value == FieldView::Text(c.theme)
            &&& key == "auto_open"@ ==> value == FieldView::Flag(c.auto_open)
            &&& key == "show_ignored"@ ==> value == FieldView::Flag(c.show_ignored)
            &&& key == "toggle_placement"@ ==> value == FieldView::Text(
                match c.toggle_placement {
                    TogglePlacement::Split => "split"@,
                    TogglePlacement::Overlay => "overlay"@,
                    TogglePlacement::Zoomed => "zoomed"@,
                    TogglePlacement::Tab => "tab"@,
                },
            )
            &&& key == "toggle_direction"@ ==> value == FieldView::Text(
                match c.toggle_direction {
                    ToggleDirection::Right => "right"@,
                    ToggleDirection::Down => "down"@,
                },
            )
            &&& key == "comment_sync"@ ==> value == FieldView::Text(
                match c.comment_sync {
                    CommentSync::Immediate => "immediate"@,
                    CommentSync::OnSend => "on-send"@,
                },
            )
        }),
{
    lemma_setting_at(entries, i);
    lemma_keys_differ();
    lemma_words_differ();
}

/// A key that a valid file leaves out keeps its default: the built-in theme, a split to the right,
/// closed at the start, ignored files hidden, and comments shared at once.
pub proof fn law_left_out_keys_have_these_defaults(entries: Seq<(Seq<char>, FieldView)>)
    requires
        config_of(entries) is Ok,
    ensures
        ({
            let c = config_of(entries)->Ok_0;
            &&& !sets(entries, "theme"@) ==> c.theme == "catppuccin"@
            &&& !sets(entries, "toggle_placement"@) ==> c.toggle_placement == TogglePlacement::Split
            &&& !sets(entries, "toggle_direction"@) ==> c.toggle_direction == ToggleDirection::Right
            &&& !sets(entries, "auto_open"@) ==> !c.auto_open
            &&& !sets(entries, "show_ignored"@) ==> !c.show_ignored
            &&& !sets(entries, "comment_sync"@) ==> c.comment_sync == CommentSync::Immediate
        }),
{
    lemma_setting_of(entries, "theme"@);
    lemma_setting_of(entries, "toggle_placement"@);
    lemma_setting_of(entries, "toggle_direction"@);
    lemma_setting_of(entries, "auto_open"@);
    lemma_setting_of(entries, "show_ignored"@);
    lemma_setting_of(entries, "comment_sync"@);
}

/// Without a file, and without a directory for one, the configuration is the one that an empty file
/// makes.
pub proof fn law_no_file_is_an_empty_file()
    ensures
        config_of(Seq::empty()) == Ok::<_, Seq<char>>(defaults()),
        config_of_read(ConfigRead::Missing) == config_of(Seq::empty()),
{
}

/// The machine-readable form says what the configuration says, and is read back as it: its members
/// are the entries of a file that sets every key.
pub proof fn law_machine_form_is_a_complete_file(config: ConfigView, key: Seq<char>)
    ensures
        ({
            let e = complete_entries(config);
            &&& config.members().dom().contains(key) <==> exists|i: int|
                0 <= i < e.len() && (#[trigger] e[i]).0 == key
            &&& forall|i: int|
                0 <= i < e.len() ==> config.members()[(#[trigger] e[i]).0] == e[i].1
        }),
{
    lemma_keys_differ();
    let e = complete_entries(config);
    let m = config.members();
    assert(e[0].0 == "auto_open"@ && e[1].0 == "comment_sync"@ && e[2].0 == "show_ignored"@
        && e[3].0 == "theme"@ && e[4].0 == "toggle_direction"@ && e[5].0 == "toggle_placement"@);
    assert forall|i: int| 0 <= i < e.len() implies m[(#[trigger] e[i]).0] == e[i].1 by {
        assert(i == 0 || i == 1 || i == 2 || i == 3 || i == 4 || i == 5);
    }
    if m.dom().contains(key) {
        assert(key == e[0].0 || key == e[1].0 || key == e[2].0 || key == e[3].0 || key == e[4].0
            || key == e[5].0);
    }
}

/// A failure names its cause: the first key that is not known, or the key whose value is invalid.
pub proof fn law_failures_name_their_cause(entries: Seq<(Seq<char>, FieldView)>, i: int)
    requires
        0 <= i < entries.len(),
        distinct(entries),
        forall|k: int| 0 <= k < entries.len() && k != i ==> takes(
            (#[trigger] entries[k]).0,
            entries[k].1,
        ),
        !takes(entries[i].0, entries[i].1),
    ensures
        ({
            let (key, value) = entries[i];
            config_of(entries) matches Err(why) && {
                let front = if config_keys().contains(key) {
                    "invalid value for `"@ + key + "`"@
                } else {
                    "unknown key "@ + quoted_text(key)
                };
                front.len() <= why.len() && why.take(front.len() as int) == front
            }
        }),
{
    let (key, value) = entries[i];
    lemma_keys_differ();
    law_a_file_is_valid_where_each_entry_is(entries);
    assert(config_of(entries) is Err) by {
        assert(!takes(entries[i].0, entries[i].1));
    }
    lemma_known_keys(key);
    lemma_setting_at(entries, i);
    let why = config_of(entries)->Err_0;
    if !config_keys().contains(key) {
        lemma_first_unknown(entries);
        let other = first_unknown(entries);
        assert(other is Some) by {
            assert(!config_keys().contains(entries[i].0));
        }
        let j = choose|j: int| 0 <= j < entries.len() && (#[trigger] entries[j]).0 == other->0;
        if j != i {
            assert(takes(entries[j].0, entries[j].1));
            lemma_known_keys(entries[j].0);
        }
        let front = "unknown key "@ + quoted_text(key);
        assert(why.take(front.len() as int) =~= front);
    } else {
        lemma_first_unknown(entries);
        assert(first_unknown(entries) is None) by {
            if first_unknown(entries) is Some {
                let bad = first_unknown(entries)->0;
                let j = choose|j: int| 0 <= j < entries.len() && (#[trigger] entries[j]).0 == bad;
                if j != i {
                    assert(takes(entries[j].0, entries[j].1));
                    lemma_known_keys(entries[j].0);
                }
            }
        }
        lemma_other_is_valid(entries, i, "theme"@);
        lemma_other_is_valid(entries, i, "toggle_placement"@);
        lemma_other_is_valid(entries, i, "toggle_direction"@);
        lemma_other_is_valid(entries, i, "auto_open"@);
        lemma_other_is_valid(entries, i, "show_ignored"@);
        lemma_other_is_valid(entries, i, "comment_sync"@);
        reveal_strlit("invalid value for `");
        reveal_strlit("`");
        reveal_strlit("`; expected ");
        reveal_strlit("invalid value for `theme`: ");
        let front = "invalid value for `"@ + key + "`"@;
        if key == "theme"@ {
            reveal_strlit("theme");
            assert(front =~= "invalid value for `theme`: "@.take(front.len() as int));
        }
        assert(why.take(front.len() as int) =~= front);
    }
}

proof fn lemma_other_is_valid(entries: Seq<(Seq<char>, FieldView)>, i: int, key: Seq<char>)
    requires
        0 <= i < entries.len(),
        distinct(entries),
        forall|k: int| 0 <= k < entries.len() && k != i ==> takes(
            (#[trigger] entries[k]).0,
            entries[k].1,
        ),
    ensures
        entries[i].0 != key ==> (setting_of(entries, key) matches Some(v) ==> takes(key, v)),
{
    lemma_setting_of(entries, key);
    if entries[i].0 != key && setting_of(entries, key) is Some {
        let v = setting_of(entries, key)->0;
        let j = choose|j: int|
            0 <= j < entries.len() && #[trigger] entries[j] == (key, v) && forall|k: int|
                0 <= k < j ==> (#[trigger] entries[k]).0 != key;
        assert(j != i);
        assert(takes(entries[j].0, entries[j].1));
    }
}

/// A file is read successfully just where its entries give a configuration, and then gives that one;
/// a failure carries the path of the file and the reason.
pub proof fn law_outcomes_say_what_the_file_says(
    r: Result<PluginConfig, PluginConfigError>,
    path: Seq<char>,
    expected: Result<ConfigView, Seq<char>>,
)
    requires
        is_outcome(r, path, expected),
    ensures
        r is Ok <==> expected is Ok,
        r matches Ok(config) ==> expected == Ok::<ConfigView, Seq<char>>(config@),
        r matches Err(error) ==> error@.path == path && expected == Err::<ConfigView, Seq<char>>(
            error@.detail,
        ),
{
}

} // verus!
