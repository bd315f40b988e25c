use quake_tools::config::{
    default_config, load_config, parse_config, parse_text, parse_u32, serialize_config,
    u32_to_dec, LoadOutcome,
};

const DEFAULT_TEXT: &str = "megahealth_warning_threshold = 10\n\
megahealth_critical_threshold = 5\n\
red_armor_warning_threshold = 10\n\
red_armor_critical_threshold = 5\n\
megahealth_hotkey = \"Key1\"\n\
red_armor_hotkey = \"Key2\"\n";

#[test]
fn missing_file_yields_the_default_and_its_text() {
    match load_config(None) {
        LoadOutcome::WroteDefault(c, text) => {
            assert_eq!(c.megahealth_warning_threshold, 10);
            assert_eq!(c.megahealth_critical_threshold, 5);
            assert_eq!(c.red_armor_warning_threshold, 10);
            assert_eq!(c.red_armor_critical_threshold, 5);
            assert_eq!(c.megahealth_hotkey, "Key1");
            assert_eq!(c.red_armor_hotkey, "Key2");
            assert_eq!(text, DEFAULT_TEXT);
        }
        _ => panic!("a missing file must synthesize the default"),
    }
}

#[test]
fn the_default_text_parses_back_to_the_default() {
    let text = serialize_config(&default_config());
    let c = parse_config(&text).expect("the written default must parse");
    assert_eq!(c.megahealth_warning_threshold, 10);
    assert_eq!(c.megahealth_critical_threshold, 5);
    assert_eq!(c.red_armor_warning_threshold, 10);
    assert_eq!(c.red_armor_critical_threshold, 5);
    assert_eq!(c.megahealth_hotkey, "Key1");
    assert_eq!(c.red_armor_hotkey, "Key2");
}

#[test]
fn the_default_text_is_well_formed_toml() {
    let text = serialize_config(&default_config());
    let table: toml::Table = toml::from_str(&text).expect("the written default must be valid TOML");
    assert_eq!(
        table.get("megahealth_warning_threshold").and_then(|v| v.as_integer()),
        Some(10)
    );
    assert_eq!(
        table.get("megahealth_critical_threshold").and_then(|v| v.as_integer()),
        Some(5)
    );
    assert_eq!(
        table.get("red_armor_warning_threshold").and_then(|v| v.as_integer()),
        Some(10)
    );
    assert_eq!(
        table.get("red_armor_critical_threshold").and_then(|v| v.as_integer()),
        Some(5)
    );
    assert_eq!(table.get("megahealth_hotkey").and_then(|v| v.as_str()), Some("Key1"));
    assert_eq!(table.get("red_armor_hotkey").and_then(|v| v.as_str()), Some("Key2"));
}

#[test]
fn an_unparseable_value_fails_and_writes_nothing() {
    let text = "megahealth_warning_threshold = ten\n\
megahealth_critical_threshold = 5\n\
red_armor_warning_threshold = 10\n\
red_armor_critical_threshold = 5\n\
megahealth_hotkey = \"Key1\"\n\
red_armor_hotkey = \"Key2\"\n";
    match load_config(Some(text)) {
        // Failed carries only the error: there is no text to persist,
        // so the existing file cannot be overwritten
        LoadOutcome::Failed(e) => assert!(!e.is_empty()),
        _ => panic!("a malformed file must fail to load"),
    }
}

#[test]
fn a_well_formed_file_loads() {
    let text = "  megahealth_warning_threshold=12  \n\
# a comment\n\
\n\
megahealth_critical_threshold =  7\n\
red_armor_warning_threshold= 9\n\
red_armor_critical_threshold = 4\n\
an_unknown_key = \"ignored\"\n\
megahealth_hotkey = \"F1\"\n\
red_armor_hotkey = \"F2\"\n";
    match load_config(Some(text)) {
        LoadOutcome::Loaded(c) => {
            assert_eq!(c.megahealth_warning_threshold, 12);
            assert_eq!(c.megahealth_critical_threshold, 7);
            assert_eq!(c.red_armor_warning_threshold, 9);
            assert_eq!(c.red_armor_critical_threshold, 4);
            assert_eq!(c.megahealth_hotkey, "F1");
            assert_eq!(c.red_armor_hotkey, "F2");
        }
        _ => panic!("a well-formed file must load"),
    }
}

#[test]
fn a_line_without_equals_is_malformed() {
    let text = "megahealth_warning_threshold 10\n";
    assert!(parse_config(text).is_err());
}

#[test]
fn a_missing_field_is_an_error() {
    let text = "megahealth_warning_threshold = 10\n\
megahealth_critical_threshold = 5\n\
red_armor_warning_threshold = 10\n\
red_armor_critical_threshold = 5\n\
megahealth_hotkey = \"Key1\"\n";
    assert!(parse_config(text).is_err());
}

#[test]
fn a_duplicate_key_is_an_error() {
    let text = "megahealth_warning_threshold = 10\n\
megahealth_warning_threshold = 11\n\
megahealth_critical_threshold = 5\n\
red_armor_warning_threshold = 10\n\
red_armor_critical_threshold = 5\n\
megahealth_hotkey = \"Key1\"\n\
red_armor_hotkey = \"Key2\"\n";
    assert!(parse_config(text).is_err());
}

#[test]
fn an_unquoted_hotkey_is_an_error() {
    let text = "megahealth_warning_threshold = 10\n\
megahealth_critical_threshold = 5\n\
red_armor_warning_threshold = 10\n\
red_armor_critical_threshold = 5\n\
megahealth_hotkey = Key1\n\
red_armor_hotkey = \"Key2\"\n";
    assert!(parse_config(text).is_err());
}

#[test]
fn parse_u32_accepts_digits_in_range() {
    assert_eq!(parse_u32("0"), Some(0));
    assert_eq!(parse_u32("10"), Some(10));
    assert_eq!(parse_u32("007"), Some(7));
    assert_eq!(parse_u32("4294967295"), Some(u32::MAX));
}

#[test]
fn parse_u32_rejects_bad_tokens() {
    assert_eq!(parse_u32(""), None);
    assert_eq!(parse_u32("ten"), None);
    assert_eq!(parse_u32("-1"), None);
    assert_eq!(parse_u32("1 0"), None);
    assert_eq!(parse_u32("4294967296"), None);
    assert_eq!(parse_u32("99999999999999999999"), None);
}

#[test]
fn parse_text_accepts_quoted_strings_only() {
    assert_eq!(parse_text("\"Key1\""), Some("Key1".to_owned()));
    assert_eq!(parse_text("\"\""), Some(String::new()));
    assert_eq!(parse_text("Key1"), None);
    assert_eq!(parse_text("\""), None);
    assert_eq!(parse_text("\"a\"b\""), None);
    assert_eq!(parse_text("\"a\\b\""), None);
}

#[test]
fn parse_text_decodes_the_three_escapes() {
    assert_eq!(parse_text("\"a\\\"b\""), Some("a\"b".to_owned()));
    assert_eq!(parse_text("\"a\\\\b\""), Some("a\\b".to_owned()));
    assert_eq!(parse_text("\"a\\nb\""), Some("a\nb".to_owned()));
    // a backslash must introduce one of the three escapes
    assert_eq!(parse_text("\"a\\qb\""), None);
    // unterminated content
    assert_eq!(parse_text("\"abc"), None);
    assert_eq!(parse_text("\"abc\\\""), None);
}

#[test]
fn parse_text_allows_only_a_comment_after_the_closing_quote() {
    assert_eq!(parse_text("\"a\" # note"), Some("a".to_owned()));
    assert_eq!(parse_text("\"a\"   "), Some("a".to_owned()));
    assert_eq!(parse_text("\"a\" x"), None);
}

#[test]
fn inline_comments_after_values_load() {
    let text = "megahealth_warning_threshold = 10 # after the pickup\n\
megahealth_critical_threshold = 5# tight\n\
red_armor_warning_threshold = 10\n\
red_armor_critical_threshold = 5\n\
megahealth_hotkey = \"Key1\" # a #1 key\n\
red_armor_hotkey = \"Key2\"\n";
    match load_config(Some(text)) {
        LoadOutcome::Loaded(c) => {
            assert_eq!(c.megahealth_warning_threshold, 10);
            assert_eq!(c.megahealth_critical_threshold, 5);
            assert_eq!(c.megahealth_hotkey, "Key1");
        }
        _ => panic!("inline comments must be tolerated"),
    }
}

#[test]
fn serialization_escapes_and_parses_back_any_hotkey() {
    let c = quake_tools::config::Config {
        megahealth_warning_threshold: 0,
        megahealth_critical_threshold: u32::MAX,
        red_armor_warning_threshold: 42,
        red_armor_critical_threshold: 7,
        megahealth_hotkey: "a\"b\\c\nd".to_owned(),
        red_armor_hotkey: "#no comment = \"quoted\"".to_owned(),
    };
    let text = serialize_config(&c);
    let back = parse_config(&text).expect("the written text must parse");
    assert_eq!(back.megahealth_warning_threshold, 0);
    assert_eq!(back.megahealth_critical_threshold, u32::MAX);
    assert_eq!(back.red_armor_warning_threshold, 42);
    assert_eq!(back.red_armor_critical_threshold, 7);
    assert_eq!(back.megahealth_hotkey, "a\"b\\c\nd");
    assert_eq!(back.red_armor_hotkey, "#no comment = \"quoted\"");
}

#[test]
fn u32_to_dec_renders_decimals() {
    assert_eq!(u32_to_dec(0), "0");
    assert_eq!(u32_to_dec(5), "5");
    assert_eq!(u32_to_dec(10), "10");
    assert_eq!(u32_to_dec(305), "305");
    assert_eq!(u32_to_dec(u32::MAX), "4294967295");
}
