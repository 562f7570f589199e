use xmux::config::{parse_key_binding, Config, ConfigFile};
use xmux::input::{KeyCode, KeyModifiers};

#[test]
fn parse_ctrl_b() {
    let (mods, key) = parse_key_binding("C-b").unwrap();
    assert_eq!(mods, KeyModifiers::control());
    assert_eq!(key, KeyCode::Char('b'));
}

#[test]
fn parse_ctrl_a() {
    let (mods, key) = parse_key_binding("C-a").unwrap();
    assert_eq!(mods, KeyModifiers::control());
    assert_eq!(key, KeyCode::Char('a'));
}

#[test]
fn parse_ctrl_space() {
    let (mods, key) = parse_key_binding("C-Space").unwrap();
    assert_eq!(mods, KeyModifiers::control());
    assert_eq!(key, KeyCode::Char(' '));
}

#[test]
fn parse_alt_a() {
    let (mods, key) = parse_key_binding("A-a").unwrap();
    assert_eq!(mods, KeyModifiers::alt());
    assert_eq!(key, KeyCode::Char('a'));
}

#[test]
fn parse_single_char_no_modifier() {
    let (mods, key) = parse_key_binding("a").unwrap();
    assert_eq!(mods, KeyModifiers::none());
    assert_eq!(key, KeyCode::Char('a'));
}

#[test]
fn parse_escape() {
    let (mods, key) = parse_key_binding("C-Esc").unwrap();
    assert_eq!(mods, KeyModifiers::control());
    assert_eq!(key, KeyCode::Esc);
}

#[test]
fn parse_ctrl_long_form() {
    let (mods, key) = parse_key_binding("Ctrl-a").unwrap();
    assert_eq!(mods, KeyModifiers::control());
    assert_eq!(key, KeyCode::Char('a'));
}

#[test]
fn parse_invalid_returns_none() {
    assert!(parse_key_binding("C-a-b").is_none());
    assert!(parse_key_binding("X-a").is_none());
    assert!(parse_key_binding("C-foobar").is_none());
}

#[test]
fn default_config_is_ctrl_b() {
    let config = Config::default();
    assert_eq!(config.prefix_key, KeyCode::Char('b'));
    assert_eq!(config.prefix_modifiers, KeyModifiers::control());
}

#[test]
fn parse_whitespace_trimmed() {
    let (mods, key) = parse_key_binding("  C-a  ").unwrap();
    assert_eq!(mods, KeyModifiers::control());
    assert_eq!(key, KeyCode::Char('a'));
}

#[test]
fn parse_modifier_names_ignore_case() {
    let (mods, key) = parse_key_binding("ctrl-x").unwrap();
    assert_eq!(mods, KeyModifiers::control());
    assert_eq!(key, KeyCode::Char('x'));
    let (mods, key) = parse_key_binding("ALT-Enter").unwrap();
    assert_eq!(mods, KeyModifiers::alt());
    assert_eq!(key, KeyCode::Enter);
    let (mods, key) = parse_key_binding("S-Tab").unwrap();
    assert_eq!(mods, KeyModifiers::shift());
    assert_eq!(key, KeyCode::Tab);
}

#[test]
fn parse_named_keys() {
    assert_eq!(parse_key_binding("C-SPACE").unwrap().1, KeyCode::Char(' '));
    assert_eq!(parse_key_binding("C-escape").unwrap().1, KeyCode::Esc);
    assert_eq!(parse_key_binding("C-ENTER").unwrap().1, KeyCode::Enter);
    assert_eq!(parse_key_binding("C-bs").unwrap().1, KeyCode::Backspace);
    assert!(parse_key_binding("C-Return").is_none());
    assert_eq!(parse_key_binding("C-Up").unwrap().1, KeyCode::Up);
    assert_eq!(parse_key_binding("C-left").unwrap().1, KeyCode::Left);
}

#[test]
fn parse_single_char_is_lowercased() {
    let (mods, key) = parse_key_binding("B").unwrap();
    assert_eq!(mods, KeyModifiers::none());
    assert_eq!(key, KeyCode::Char('b'));
    assert!(parse_key_binding("C-\u{e9}").is_none());
}

#[test]
fn parse_empty_and_multi_char_without_modifier() {
    assert!(parse_key_binding("").is_none());
    assert!(parse_key_binding("ab").is_none());
    assert!(parse_key_binding("C-").is_none());
}

#[test]
fn config_from_file_reads_prefix_and_bindings() {
    let file = ConfigFile {
        prefix: Some("C-a".to_string()),
        bindings: vec![
            ("split_vertical".to_string(), "v".to_string()),
            ("quit".to_string(), "X-q".to_string()),
        ],
    };
    let config = Config::from_file(&file);
    assert_eq!(config.prefix_key, KeyCode::Char('a'));
    assert_eq!(config.prefix_modifiers, KeyModifiers::control());
    assert_eq!(config.bindings.len(), 1);
    assert_eq!(config.bindings[0].0, "split_vertical");
    assert_eq!(config.bindings[0].1, (KeyModifiers::none(), KeyCode::Char('v')));
}

#[test]
fn config_from_file_keeps_default_prefix_when_invalid() {
    let file = ConfigFile { prefix: Some("nonsense-key".to_string()), bindings: vec![] };
    let config = Config::from_file(&file);
    assert_eq!(config.prefix_key, KeyCode::Char('b'));
    assert_eq!(config.prefix_modifiers, KeyModifiers::control());
    let file = ConfigFile { prefix: None, bindings: vec![] };
    let config = Config::from_file(&file);
    assert_eq!(config.prefix_key, KeyCode::Char('b'));
}
