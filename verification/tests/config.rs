use herdr_glowr::config::{
    CommentSync, ConfigRead, PluginConfig, PluginConfigError, Setting, ToggleDirection,
    TogglePlacement, config_from_entries, parse_plugin_config, plugin_config, plugin_config_in,
};
use herdr_glowr::theme;

const PATH: &str = "/home/me/.config/glowr/config.toml";

/// What reading a file with this text leads to.
fn read(text: &str) -> Result<PluginConfig, PluginConfigError> {
    plugin_config_in(PATH, ConfigRead::Text(text.to_string()))
}

#[test]
fn missing_file_uses_all_defaults() {
    let config = plugin_config_in(PATH, ConfigRead::Missing).unwrap();
    assert_eq!(config, PluginConfig::default());
}

#[test]
fn no_directory_uses_all_defaults() {
    assert_eq!(plugin_config(None).unwrap(), PluginConfig::default());
    let file = Some((PATH.to_string(), ConfigRead::Text("auto_open = true\n".to_string())));
    assert!(plugin_config(file).unwrap().auto_open());
}

#[test]
fn defaults_are_split_right_no_auto_open_no_ignored_immediate() {
    let config = PluginConfig::default();
    assert_eq!(config.toggle_placement(), TogglePlacement::Split);
    assert_eq!(config.toggle_direction(), ToggleDirection::Right);
    assert!(!config.auto_open());
    assert!(!config.show_ignored());
    assert_eq!(config.comment_sync(), CommentSync::Immediate);
}

#[test]
fn omitted_keys_keep_their_defaults() {
    let config = read("theme = \"gruvbox\"\n").unwrap();
    assert_eq!(config.theme(), "gruvbox");
    assert_eq!(config.toggle_placement(), TogglePlacement::Split);
    assert_eq!(config.toggle_direction(), ToggleDirection::Right);
    assert!(!config.auto_open());
    assert!(!config.show_ignored());
    assert_eq!(config.comment_sync(), CommentSync::Immediate);
}

#[test]
fn reads_complete_valid_file_as_one_value() {
    let text = "theme = \"tokyo-night\"\n\
                toggle_placement = \"overlay\"\n\
                toggle_direction = \"down\"\n\
                auto_open = true\n\
                show_ignored = true\n\
                comment_sync = \"on-send\"\n";
    let config = read(text).unwrap();
    assert_eq!(config.theme(), "tokyo-night");
    assert_eq!(config.toggle_placement(), TogglePlacement::Overlay);
    assert_eq!(config.toggle_direction(), ToggleDirection::Down);
    assert!(config.auto_open());
    assert!(config.show_ignored());
    assert_eq!(config.comment_sync(), CommentSync::OnSend);
}

#[test]
fn comment_sync_parses_both_values_and_defaults_immediate() {
    let config = plugin_config_in(PATH, ConfigRead::Missing).unwrap();
    assert_eq!(config.comment_sync(), CommentSync::Immediate);
    assert_eq!(read("comment_sync = \"on-send\"\n").unwrap().comment_sync(), CommentSync::OnSend);
    assert_eq!(
        read("comment_sync = \"immediate\"\n").unwrap().comment_sync(),
        CommentSync::Immediate
    );
    assert!(read("comment_sync = \"sometimes\"\n").is_err());
}

#[test]
fn unknown_key_and_syntax_error_fail_the_whole_file() {
    let error = read("theme = \"gruvbox\"\nbase_branches = [\"main\"]\n").unwrap_err().message();
    assert!(error.contains(PATH));
    assert!(error.contains("unknown key \"base_branches\""));
    assert!(read("theme = [\n").unwrap_err().message().contains("syntax error"));
}

#[test]
fn every_invalid_value_fails_instead_of_falling_back() {
    let cases = [
        ("theme = \"unknown\"\n", "`theme`"),
        ("toggle_placement = \"left\"\n", "`toggle_placement`"),
        ("toggle_direction = \"left\"\n", "`toggle_direction`"),
        ("auto_open = \"yes\"\n", "`auto_open`"),
        ("show_ignored = \"yes\"\n", "`show_ignored`"),
        ("comment_sync = \"sometimes\"\n", "`comment_sync`"),
    ];
    for (text, key) in cases {
        let error = read(text).unwrap_err().message();
        assert!(error.contains(key), "{text}: {error}");
        assert!(error.contains("expected"), "{text}: {error}");
    }
}

#[test]
fn unreadable_config_path_is_an_error() {
    let read = ConfigRead::Failed("Is a directory (os error 21)".to_string());
    let error = plugin_config_in(PATH, read).unwrap_err().message();
    assert!(error.contains("read failed"));
    assert!(error.contains("config.toml"));
    assert_eq!(
        error,
        "config /home/me/.config/glowr/config.toml: read failed: Is a directory (os error 21)"
    );
}

#[test]
fn normalized_json_contains_every_key() {
    let value = PluginConfig::default().to_json();
    let object = value.as_object().unwrap();
    assert_eq!(object.len(), 6);
    assert_eq!(object["theme"], "catppuccin");
    assert_eq!(object["toggle_placement"], "split");
    assert_eq!(object["toggle_direction"], "right");
    assert_eq!(object["auto_open"], false);
    assert_eq!(object["show_ignored"], false);
    assert_eq!(object["comment_sync"], "immediate");
}

#[test]
fn json_says_what_the_file_set() {
    let text = "theme = \"nord\"\ntoggle_placement = \"tab\"\nshow_ignored = true\n";
    let value = read(text).unwrap().to_json();
    assert_eq!(value["theme"], "nord");
    assert_eq!(value["toggle_placement"], "tab");
    assert_eq!(value["toggle_direction"], "right");
    assert_eq!(value["show_ignored"], true);
}

#[test]
fn messages_are_exact() {
    let said = |text: &str| read(text).unwrap_err().message();
    let prefix = format!("config {PATH}: ");
    assert_eq!(
        said("zoom = 1\n"),
        format!(
            "{prefix}unknown key \"zoom\"; expected one of theme, toggle_placement, \
             toggle_direction, auto_open, show_ignored, comment_sync"
        )
    );
    assert_eq!(
        said("theme = \"solar\"\n"),
        format!("{prefix}invalid value for `theme`: \"solar\"; expected a built-in theme name")
    );
    assert_eq!(
        said("theme = 3\n"),
        format!("{prefix}invalid value for `theme`; expected a built-in theme name")
    );
    assert_eq!(
        said("toggle_placement = true\n"),
        format!(
            "{prefix}invalid value for `toggle_placement`; expected one of split, overlay, \
             zoomed, tab"
        )
    );
    assert_eq!(
        said("toggle_direction = \"up\"\n"),
        format!("{prefix}invalid value for `toggle_direction`; expected one of right, down")
    );
    assert_eq!(
        said("auto_open = 1\n"),
        format!("{prefix}invalid value for `auto_open`; expected a boolean")
    );
    assert_eq!(
        said("comment_sync = []\n"),
        format!("{prefix}invalid value for `comment_sync`; expected one of immediate, on-send")
    );
}

#[test]
fn an_unknown_key_is_quoted_with_escapes() {
    let error = read("\"a\\\"b\" = 1\n").unwrap_err().message();
    assert!(error.contains("unknown key \"a\\\"b\";"), "{error}");
}

#[test]
fn syntax_errors_carry_the_message_of_the_parser() {
    let error = parse_plugin_config(PATH, "theme = \n").unwrap_err().message();
    assert!(error.starts_with(&format!("config {PATH}: syntax error: ")), "{error}");
    assert!(error.len() > format!("config {PATH}: syntax error: ").len());
}

#[test]
fn the_first_failure_in_key_order_is_reported() {
    let both = "comment_sync = 1\ntheme = 2\n";
    assert!(read(both).unwrap_err().message().contains("`theme`"));
    let unknown_too = "comment_sync = 1\ntheme = 2\nzoom = 3\n";
    assert!(read(unknown_too).unwrap_err().message().contains("unknown key \"zoom\""));
}

#[test]
fn entries_decide_without_a_file() {
    let entries = vec![
        ("toggle_placement".to_string(), Setting::Text("zoomed".to_string())),
        ("auto_open".to_string(), Setting::Flag(true)),
    ];
    let config = config_from_entries(PATH, &entries).unwrap();
    assert_eq!(config.toggle_placement(), TogglePlacement::Zoomed);
    assert!(config.auto_open());
    assert_eq!(config.theme(), theme::DEFAULT);

    let bad = vec![("auto_open".to_string(), Setting::Other)];
    assert!(config_from_entries(PATH, &bad).is_err());
}

#[test]
fn each_word_names_the_value_it_is_written_for() {
    for p in [
        TogglePlacement::Split,
        TogglePlacement::Overlay,
        TogglePlacement::Zoomed,
        TogglePlacement::Tab,
    ] {
        let text = format!("toggle_placement = \"{}\"\n", p.as_str());
        assert_eq!(read(&text).unwrap().toggle_placement(), p);
    }
    for d in [ToggleDirection::Right, ToggleDirection::Down] {
        let text = format!("toggle_direction = \"{}\"\n", d.as_str());
        assert_eq!(read(&text).unwrap().toggle_direction(), d);
    }
    for s in [CommentSync::Immediate, CommentSync::OnSend] {
        let text = format!("comment_sync = \"{}\"\n", s.as_str());
        assert_eq!(read(&text).unwrap().comment_sync(), s);
    }
}

#[test]
fn all_eighteen_themes_are_known() {
    let names = [
        "catppuccin",
        "catppuccin-frappe",
        "catppuccin-macchiato",
        "dracula",
        "nord",
        "gruvbox",
        "one-dark",
        "solarized",
        "monokai",
        "tokyo-night",
        "rose-pine",
        "catppuccin-latte",
        "gruvbox-light",
        "one-light",
        "solarized-light",
        "github-light",
        "tokyo-night-day",
        "rose-pine-dawn",
    ];
    for name in names {
        assert!(theme::is_known(name), "{name}");
        assert_eq!(read(&format!("theme = \"{name}\"\n")).unwrap().theme(), name);
    }
    assert!(theme::is_known(theme::DEFAULT));
    assert!(!theme::is_known("catppuccin-mocha"));
    assert!(!theme::is_known(""));
}
