use conftool::list::{dependencies, show, show_all, ListOp};
use conftool::logger::{Logger, Verbosity};
use conftool::parse::{parse_config, parse_text_config, render_config, split_lines};
use conftool::text::trim_str;
use conftool::{
    clamp_verbosity, conf_type, decimal_string, list_ops, ConfType, ConfigEntry, ConfigError, DefaultValue,
    DisplayVec, EntryType, Switch,
};

fn pairs(items: &[(&str, &str)]) -> Vec<(String, String)> {
    items.iter().map(|(k, v)| (k.to_string(), v.to_string())).collect()
}

#[test]
fn render_then_parse_round_trips() {
    let kv = pairs(&[("CONFIG_LONG_NAME", "y"), ("B", "some value"), ("C", "")]);
    let text = render_config(&kv);
    assert_eq!(text, "CONFIG_LONG_NAME = y\nB                = some value\nC                = \n");
    assert_eq!(parse_text_config(&text).unwrap(), kv);
}

#[test]
fn render_empty_set() {
    assert_eq!(render_config(&Vec::new()), "");
    assert_eq!(parse_text_config("").unwrap(), Vec::new());
}

#[test]
fn parse_trims_and_skips_blank_lines() {
    let lines = split_lines("  A =  y \n\n   \nB=1=2\n");
    assert_eq!(lines, vec!["  A =  y ", "", "   ", "B=1=2", ""]);
    assert_eq!(parse_config(&lines).unwrap(), pairs(&[("A", "y"), ("B", "1")]));
}

#[test]
fn parse_rejects_line_without_equals() {
    assert_eq!(parse_text_config("A = y\nB\n"), Err(ConfigError::MalformedLine));
}

#[test]
fn trim_removes_unicode_white_space() {
    assert_eq!(trim_str("\u{3000}\t a b \n\u{a0}"), "a b");
    assert_eq!(trim_str("   "), "");
}

#[test]
fn decimal_text_of_integers() {
    assert_eq!(decimal_string(0), "0");
    assert_eq!(decimal_string(8080), "8080");
    assert_eq!(decimal_string(-45), "-45");
    assert_eq!(decimal_string(i32::MIN), "-2147483648");
    assert_eq!(decimal_string(i32::MAX), "2147483647");
}

fn catalog() -> Vec<ConfigEntry> {
    vec![
        ConfigEntry {
            name: "A".to_string(),
            depends: DisplayVec(vec![]),
            enttype: EntryType::Switch(Switch::Yes),
            choices: None,
            help: "first".to_string(),
        },
        ConfigEntry {
            name: "LEVEL".to_string(),
            depends: DisplayVec(vec!["A".to_string()]),
            enttype: EntryType::String("low".to_string()),
            choices: Some(DisplayVec(vec!["low".to_string(), "high".to_string()])),
            help: "second".to_string(),
        },
        ConfigEntry {
            name: "N".to_string(),
            depends: DisplayVec(vec!["LEVEL".to_string(), "A".to_string()]),
            enttype: EntryType::Int(3),
            choices: None,
            help: "third".to_string(),
        },
    ]
}

#[test]
fn describe_entries() {
    let entries = catalog();
    assert_eq!(
        show("LEVEL", &entries).unwrap(),
        "LEVEL:\n  depends: A\n  type: string\n  choices: low, high\n  default: low\n  help: second"
    );
    assert_eq!(
        show("N", &entries).unwrap(),
        "N:\n  depends: LEVEL, A\n  type: integer\n  choices: Any integer\n  default: 3\n  help: third"
    );
    assert_eq!(show("Z", &entries), Err(ConfigError::InvalidOption));
    assert!(show_all(&entries).starts_with("A:\n  depends: \n  type: switch\n  choices: y, n\n  default: y\n  help: first\n"));
}

#[test]
fn dependency_listing() {
    let entries = catalog();
    assert_eq!(dependencies("A", &entries).unwrap(), "A:\n  None\n");
    assert_eq!(dependencies("N", &entries).unwrap(), "N:\n  LEVEL\n  A\n");
    assert_eq!(dependencies("Z", &entries), Err(ConfigError::InvalidOption));
}

#[test]
fn entry_types_from_catalog_fields() {
    assert_eq!(EntryType::declared("integer", &DefaultValue::Integer(12)), Ok(EntryType::Int(12)));
    assert_eq!(
        EntryType::declared("integer", &DefaultValue::Integer(1 << 40)),
        Err(ConfigError::InvalidDefault)
    );
    assert_eq!(
        EntryType::declared("string", &DefaultValue::Text("x".to_string())),
        Ok(EntryType::String("x".to_string()))
    );
    assert_eq!(
        EntryType::declared("switch", &DefaultValue::Text("n".to_string())),
        Ok(EntryType::Switch(Switch::No))
    );
    assert_eq!(
        EntryType::declared("switch", &DefaultValue::Text("maybe".to_string())),
        Err(ConfigError::InvalidDefault)
    );
    assert_eq!(EntryType::declared("switch", &DefaultValue::Other), Err(ConfigError::InvalidDefault));
    assert_eq!(EntryType::declared("float", &DefaultValue::Other), Err(ConfigError::InvalidEntryType));
}

#[test]
fn entry_defaults_and_switch_state() {
    let entries = catalog();
    assert_eq!(entries[0].default_value(), "y");
    assert_eq!(entries[2].default_value(), "3");
    assert!(entries[0].is_switch());
    assert!(!entries[1].is_switch());
    assert_eq!(entries[0].is_enabled_by_default(), Ok(true));
    assert_eq!(entries[1].is_enabled_by_default(), Err(ConfigError::NotASwitch));
}

#[test]
fn verbosity_levels() {
    assert_eq!(Verbosity::new(0), Verbosity::Lvl0);
    assert_eq!(Verbosity::new(7), Verbosity::Lvl3);
    assert_eq!(Verbosity::Lvl2.as_usize(), 2);
    let log = Logger::new(1);
    assert!(log.shows(Verbosity::Lvl0));
    assert!(log.shows(Verbosity::Lvl1));
    assert!(!log.shows(Verbosity::Lvl2));
    assert_eq!(clamp_verbosity(2), 2);
    assert_eq!(clamp_verbosity(9), 3);
}

#[test]
fn command_line_choices() {
    assert_eq!(conf_type("defconfig"), Some(ConfType::Defconfig));
    assert_eq!(conf_type("allyes"), None);
    assert!(list_ops(None, false, None).is_none());
    let ops = list_ops(Some("A".to_string()), false, Some("B".to_string())).unwrap();
    assert!(matches!(&ops[..], [ListOp::Show(a), ListOp::Dependencies(b)] if a == "A" && b == "B"));
    let ops = list_ops(Some("A".to_string()), true, None).unwrap();
    assert!(matches!(&ops[..], [ListOp::All]));
}
