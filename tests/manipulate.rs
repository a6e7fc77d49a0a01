use conftool::graph::GraphError;
use conftool::manipulate::{
    disable, disable_dependent, enable, enable_dependencies, set_switch, validate_value,
};
use conftool::{ConfigEntry, ConfigError, DisplayVec, EntryType, Switch};

fn entry(name: &str, deps: &[&str], enttype: EntryType) -> ConfigEntry {
    ConfigEntry {
        name: name.to_string(),
        depends: DisplayVec(deps.iter().map(|d| d.to_string()).collect()),
        enttype,
        choices: None,
        help: String::new(),
    }
}

fn switch(name: &str, deps: &[&str], on: bool) -> ConfigEntry {
    entry(name, deps, EntryType::Switch(if on { Switch::Yes } else { Switch::No }))
}

fn pairs(items: &[(&str, &str)]) -> Vec<(String, String)> {
    items.iter().map(|(k, v)| (k.to_string(), v.to_string())).collect()
}

fn value<'a>(kv: &'a [(String, String)], key: &str) -> Option<&'a str> {
    kv.iter().find(|(k, _)| k == key).map(|(_, v)| v.as_str())
}

#[test]
fn enabling_chain_enables_every_dependency() {
    let entries = vec![switch("A", &[], false), switch("B", &["A"], false), switch("C", &["B"], false)];
    let out = enable("C", &Vec::new(), &entries).unwrap();
    let mut sorted = out.clone();
    sorted.sort();
    assert_eq!(sorted, pairs(&[("A", "y"), ("B", "y"), ("C", "y")]));
    // the option itself comes last, after its dependencies
    assert_eq!(out.last().unwrap(), &("C".to_string(), "y".to_string()));
}

#[test]
fn enabling_updates_in_place_and_appends() {
    let entries = vec![switch("A", &[], false), switch("B", &["A"], false), switch("X", &[], false)];
    let kv = pairs(&[("X", "n"), ("A", "n")]);
    let out = enable("B", &kv, &entries).unwrap();
    assert_eq!(out, pairs(&[("X", "n"), ("A", "y"), ("B", "y")]));
}

#[test]
fn enable_dependencies_leaves_option_alone() {
    let entries = vec![switch("A", &[], false), switch("B", &["A"], false)];
    let mut kv = pairs(&[("B", "n")]);
    enable_dependencies("B", &mut kv, &entries).unwrap();
    assert_eq!(kv, pairs(&[("B", "n"), ("A", "y")]));
}

#[test]
fn enable_reports_unknown_and_non_switch_options() {
    let entries = vec![switch("A", &[], false), entry("S", &["A"], EntryType::String("x".to_string()))];
    assert_eq!(enable("Z", &Vec::new(), &entries), Err(ConfigError::InvalidOption));
    assert_eq!(enable("S", &Vec::new(), &entries), Err(ConfigError::NotASwitch));
}

#[test]
fn enable_reports_inconsistent_catalog() {
    let entries = vec![switch("A", &["MISSING"], false)];
    assert_eq!(
        enable("A", &Vec::new(), &entries),
        Err(ConfigError::Catalog(GraphError::IncompleteGraph))
    );
    let entries = vec![switch("A", &[], false), switch("A", &[], false)];
    assert_eq!(
        enable("A", &Vec::new(), &entries),
        Err(ConfigError::Catalog(GraphError::DuplicateNode))
    );
}

#[test]
fn disabling_sets_switches_off_and_removes_others() {
    let entries = vec![
        switch("A", &[], true),
        switch("B", &["A"], true),
        entry("PORT", &["B"], EntryType::Int(80)),
        switch("X", &[], true),
    ];
    let kv = pairs(&[("A", "y"), ("PORT", "8080"), ("X", "y")]);
    let out = disable("A", &kv, &entries).unwrap();
    assert_eq!(value(&out, "A"), Some("n"));
    assert_eq!(value(&out, "B"), Some("n"));
    assert_eq!(value(&out, "PORT"), None);
    assert_eq!(value(&out, "X"), Some("y"));
    assert_eq!(out, pairs(&[("A", "n"), ("X", "y"), ("B", "n")]));
}

#[test]
fn disable_dependent_removes_every_duplicate_key() {
    let entries = vec![switch("A", &[], true), entry("S", &["A"], EntryType::String("x".to_string()))];
    let mut kv = pairs(&[("S", "one"), ("A", "y"), ("S", "two")]);
    disable_dependent("A", &mut kv, &entries).unwrap();
    assert_eq!(kv, pairs(&[("A", "y")]));
}

#[test]
fn set_switch_twice_equals_once() {
    let entries = vec![switch("A", &[], false)];
    let mut once = pairs(&[("B", "1")]);
    set_switch("A", Switch::Yes, &mut once, &entries).unwrap();
    let mut twice = once.clone();
    set_switch("A", Switch::Yes, &mut twice, &entries).unwrap();
    assert_eq!(once, twice);
    assert_eq!(once, pairs(&[("B", "1"), ("A", "y")]));
}

#[test]
fn set_switch_errors() {
    let entries = vec![entry("S", &[], EntryType::String("x".to_string()))];
    let mut kv = Vec::new();
    assert_eq!(set_switch("Z", Switch::Yes, &mut kv, &entries), Err(ConfigError::InvalidOption));
    assert_eq!(set_switch("S", Switch::No, &mut kv, &entries), Err(ConfigError::NotASwitch));
    assert!(kv.is_empty());
}

#[test]
fn set_rejects_malformed_integer() {
    let entries = vec![entry("PORT", &[], EntryType::Int(80))];
    assert_eq!(conftool::manipulate::set("PORT", "8o80", &Vec::new(), &entries), Err(ConfigError::InvalidValue));
}

#[test]
fn set_trims_and_stores_integer() {
    let entries = vec![switch("NET", &[], false), entry("PORT", &["NET"], EntryType::Int(80))];
    let out = conftool::manipulate::set("PORT", "  8080 ", &Vec::new(), &entries).unwrap();
    assert_eq!(out, pairs(&[("NET", "y"), ("PORT", "8080")]));
}

#[test]
fn set_switch_off_disables_dependents() {
    let entries = vec![switch("NET", &[], true), entry("PORT", &["NET"], EntryType::Int(80))];
    let kv = pairs(&[("NET", "y"), ("PORT", "80")]);
    let out = conftool::manipulate::set("NET", "n", &kv, &entries).unwrap();
    assert_eq!(out, pairs(&[("NET", "n")]));
}

#[test]
fn set_checks_option_value_and_choices() {
    let mut level = entry("LEVEL", &[], EntryType::String("low".to_string()));
    level.choices = Some(DisplayVec(vec!["low".to_string(), "high".to_string()]));
    let entries = vec![level, switch("S", &[], false)];
    assert_eq!(conftool::manipulate::set("NOPE", "x", &Vec::new(), &entries), Err(ConfigError::InvalidOption));
    assert_eq!(conftool::manipulate::set("LEVEL", "mid", &Vec::new(), &entries), Err(ConfigError::InvalidValue));
    assert_eq!(conftool::manipulate::set("S", "yes", &Vec::new(), &entries), Err(ConfigError::InvalidValue));
    assert_eq!(conftool::manipulate::set("LEVEL", "high", &Vec::new(), &entries).unwrap(), pairs(&[("LEVEL", "high")]));
}

#[test]
fn validate_value_by_domain() {
    let int = entry("I", &[], EntryType::Int(1));
    assert!(validate_value("42", &int).is_ok());
    assert!(validate_value(" 42 ", &int).is_ok());
    assert_eq!(validate_value("4 2", &int), Err(ConfigError::InvalidValue));
    assert_eq!(validate_value("", &int), Err(ConfigError::InvalidValue));
    assert_eq!(validate_value("-1", &int), Err(ConfigError::InvalidValue));
    let sw = switch("S", &[], true);
    assert!(validate_value("y", &sw).is_ok());
    assert!(validate_value("n", &sw).is_ok());
    assert_eq!(validate_value("Y", &sw), Err(ConfigError::InvalidValue));
    let text = entry("T", &[], EntryType::String(String::new()));
    assert!(validate_value("anything at all", &text).is_ok());
}
