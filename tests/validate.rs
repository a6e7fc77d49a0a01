use conftool::generate::defconfig;
use conftool::graph::GraphError;
use conftool::validate::{validate_config, Cause, ValidationError};
use conftool::{ConfigEntry, ConfigError, DisplayVec, EntryType, Switch};

fn entry(name: &str, deps: &[&str], enttype: EntryType) -> ConfigEntry {
    ConfigEntry {
        name: name.to_string(),
        depends: DisplayVec(deps.iter().map(|d| d.to_string()).collect()),
        enttype,
        choices: None,
        help: String::new(),
    }
}

fn switch(name: &str, deps: &[&str], on: bool) -> ConfigEntry {
    entry(name, deps, EntryType::Switch(if on { Switch::Yes } else { Switch::No }))
}

fn lines(text: &[&str]) -> Vec<String> {
    text.iter().map(|l| l.to_string()).collect()
}

#[test]
fn missing_dependency_is_not_listed() {
    let entries = vec![switch("A", &[], true), switch("X", &["A"], false)];
    match validate_config(&lines(&["X = y", ""]), &entries) {
        Err(ValidationError::Dependencies(missing)) => {
            assert_eq!(missing.len(), 1);
            assert_eq!(missing[0].dependency, "A");
            assert_eq!(missing[0].cause, Cause::NotListed);
            assert_eq!(missing[0].required_by, vec!["X".to_string()]);
        },
        other => panic!("unexpected {:?}", other),
    }
}

#[test]
fn unset_dependency_aggregates_requirers() {
    let entries = vec![switch("A", &[], true), switch("X", &["A"], false), switch("Y", &["A"], false)];
    match validate_config(&lines(&["A = n", "X = y", "Y = y"]), &entries) {
        Err(ValidationError::Dependencies(missing)) => {
            assert_eq!(missing.len(), 1);
            assert_eq!(missing[0].dependency, "A");
            assert_eq!(missing[0].cause, Cause::NotSet);
            assert_eq!(missing[0].required_by, vec!["X".to_string(), "Y".to_string()]);
        },
        other => panic!("unexpected {:?}", other),
    }
}

#[test]
fn valid_config_passes() {
    let entries = vec![switch("A", &[], true), switch("X", &["A"], false), entry("P", &["X"], EntryType::Int(1))];
    assert!(validate_config(&lines(&["A = y", "  ", "X=y", "P = 12", ""]), &entries).is_ok());
}

#[test]
fn malformed_lines_are_numbered() {
    let entries = vec![switch("A", &[], true)];
    match validate_config(&lines(&["A = y", "no equals", "= y", "A B = y"]), &entries) {
        Err(ValidationError::Format(bad)) => assert_eq!(bad, vec![2, 3, 4]),
        other => panic!("unexpected {:?}", other),
    }
}

#[test]
fn unknown_options_are_reported() {
    let entries = vec![switch("A", &[], true)];
    match validate_config(&lines(&["A = y", "B = y", "C = n"]), &entries) {
        Err(ValidationError::UnknownOptions(keys)) => assert_eq!(keys, vec!["B", "C"]),
        other => panic!("unexpected {:?}", other),
    }
}

#[test]
fn invalid_values_are_reported() {
    let entries = vec![switch("A", &[], true), entry("P", &[], EntryType::Int(1))];
    match validate_config(&lines(&["A = maybe", "P = 8o80", "P = 80"]), &entries) {
        Err(ValidationError::InvalidValues(bad)) => assert_eq!(
            bad,
            vec![("A".to_string(), "maybe".to_string()), ("P".to_string(), "8o80".to_string())]
        ),
        other => panic!("unexpected {:?}", other),
    }
}

#[test]
fn inconsistent_catalog_is_reported() {
    let entries = vec![switch("A", &["GONE"], true)];
    match validate_config(&lines(&["A = y"]), &entries) {
        Err(ValidationError::Catalog(e)) => assert_eq!(e, GraphError::IncompleteGraph),
        other => panic!("unexpected {:?}", other),
    }
}

#[test]
fn defconfig_lists_options_with_enabled_dependencies() {
    let entries = vec![
        switch("A", &[], true),
        switch("B", &[], false),
        switch("C", &["A"], false),
        entry("D", &["B"], EntryType::Int(7)),
        entry("E", &["A"], EntryType::Int(-12)),
        entry("F", &[], EntryType::String("text".to_string())),
    ];
    let out = defconfig(&entries).unwrap();
    let expected: Vec<(String, String)> = [("A", "y"), ("B", "n"), ("C", "n"), ("E", "-12"), ("F", "text")]
        .iter()
        .map(|(k, v)| (k.to_string(), v.to_string()))
        .collect();
    assert_eq!(out, expected);
}

#[test]
fn defconfig_rejects_non_switch_dependency() {
    let entries = vec![entry("S", &[], EntryType::String("x".to_string())), switch("A", &["S"], true)];
    assert_eq!(defconfig(&entries), Err(ConfigError::NonSwitchDependency));
}
