use osap_host::settings::{sweeps, Field, Kind, Store, Value};

#[test]
fn snapshot_then_restore_rolls_back_a_partial_load() {
    let mut s = Store::empty();
    // A prior successful run persisted a value.
    s.set("m", "vol", Value::Int(7));
    let snap = s.snapshot("m");
    // A later (re)load partially runs: overwrites a key, adds another, then fails.
    s.set("m", "vol", Value::Int(99));
    s.set("m", "extra", Value::Bool(true));
    s.restore("m", snap);
    // The prior value is intact; the partial load's writes are discarded.
    assert_eq!(s.get("m", "vol"), Some(Value::Int(7)));
    assert_eq!(s.get("m", "extra"), None);
}

#[test]
fn restore_removes_the_orphan_of_a_first_time_failed_load() {
    let mut s = Store::empty();
    let snap = s.snapshot("new"); // no prior entry
    assert!(snap.is_none());
    // A first load writes settings, then fails.
    s.set("new", "k", Value::Str("x".into()));
    s.restore("new", snap);
    // No orphan section left behind for a module that never finished loading.
    assert!(s.get("new", "k").is_none());
    assert!(s.snapshot("new").is_none());
}

#[test]
fn a_set_answers_the_value_it_replaced() {
    let mut s = Store::empty();
    assert_eq!(s.set("m", "vol", Value::Int(1)), None);
    assert_eq!(s.set("m", "vol", Value::Int(2)), Some(Value::Int(1)));
    assert_eq!(s.get("m", "vol"), Some(Value::Int(2)));
    assert_eq!(s.get("m", "other"), None);
    assert_eq!(s.get("n", "vol"), None);
}

#[test]
fn a_module_first_met_through_a_setting_is_not_enabled() {
    let mut s = Store::empty();
    s.set("m", "vol", Value::Int(1));
    assert_eq!(s.disabled_ids(), vec!["m".to_string()]);
    s.set_enabled("m", true);
    assert!(s.disabled_ids().is_empty());
    // Enabling keeps the settings.
    assert_eq!(s.get("m", "vol"), Some(Value::Int(1)));
}

#[test]
fn disabled_ids_lists_each_disabled_module_once() {
    let mut s = Store::empty();
    s.set_enabled("a", false);
    s.set_enabled("b", true);
    s.set_enabled("c", false);
    s.set_enabled("a", false);
    assert_eq!(s.disabled_ids(), vec!["a".to_string(), "c".to_string()]);
}

#[test]
fn an_app_flag_reads_back_and_only_a_switch_counts() {
    let mut s = Store::empty();
    assert_eq!(s.app_flag("headless"), None);
    s.set_app_flag("headless", true);
    assert_eq!(s.app_flag("headless"), Some(true));
    s.set_app_flag("headless", false);
    assert_eq!(s.app_flag("headless"), Some(false));
    s.app.push(("level".to_string(), Value::Int(3)));
    assert_eq!(s.app_flag("level"), None);
    assert_eq!(s.schema_version, 1);
}

#[test]
fn restoring_a_snapshot_leaves_other_modules_alone() {
    let mut s = Store::empty();
    s.set("a", "k", Value::Bool(true));
    let snap = s.snapshot("b");
    s.set("b", "k", Value::Int(5));
    s.set("a", "k", Value::Bool(false));
    s.restore("b", snap);
    assert_eq!(s.get("a", "k"), Some(Value::Bool(false)));
    assert_eq!(s.get("b", "k"), None);
}

#[test]
fn a_value_has_its_kind() {
    assert_eq!(Value::Bool(true).kind(), Kind::Bool);
    assert_eq!(Value::Int(3).kind(), Kind::Number);
    assert_eq!(Value::Float(2.5f64.to_bits()).kind(), Kind::Number);
    assert_eq!(Value::Str("x".into()).kind(), Kind::Str);
    assert_eq!(Value::Str("x".into()).as_str(), Some("x"));
    assert_eq!(Value::Int(3).as_str(), None);
}

#[test]
fn an_old_list_of_disabled_modules_becomes_a_store() {
    let s = Store::from_disabled_list("  com.a  \r\n# a comment\n\ncom.b\n\t\ncom.a\n#com.c\ncom.d");
    assert_eq!(s.disabled_ids(), vec!["com.a".to_string(), "com.b".to_string(), "com.d".to_string()]);
    assert_eq!(s.get("com.a", "k"), None);
    assert_eq!(s.app_flag("headless"), None);
    assert_eq!(s.schema_version, 1);
    assert!(Store::from_disabled_list("").disabled_ids().is_empty());
    assert!(Store::from_disabled_list("\n \n# only comments\n").disabled_ids().is_empty());
}

#[test]
fn the_sweep_takes_old_leftovers_only() {
    const MINUTE: u64 = 60_000;
    assert!(sweeps("settings.a1B2c3.toml.tmp", true, Some(2 * MINUTE), MINUTE));
    assert!(sweeps("settings.toml.tmp", true, Some(MINUTE), MINUTE));
    assert!(!sweeps("settings.d4E5f6.toml.tmp", true, Some(MINUTE - 1), MINUTE));
    assert!(!sweeps("settings.toml", true, Some(2 * MINUTE), MINUTE));
    assert!(!sweeps("settings.toml.corrupt-1700000000", true, Some(2 * MINUTE), MINUTE));
    assert!(!sweeps("other.toml.tmp", true, Some(2 * MINUTE), MINUTE));
    assert!(!sweeps("settings.folder.toml.tmp", false, Some(2 * MINUTE), MINUTE));
    assert!(!sweeps("settings.x.toml.tmp", true, None, 0));
}

fn field(kind: Kind, choices: Option<Vec<&str>>) -> Field {
    Field {
        kind,
        label: "Voice".to_string(),
        default: Value::Str("a".into()),
        min: None,
        max: None,
        choices: choices.map(|cs| cs.into_iter().map(String::from).collect()),
    }
}

#[test]
fn a_value_of_another_kind_is_refused_first() {
    let f = field(Kind::Str, Some(vec!["a", "b"]));
    assert_eq!(f.check_kind_and_choice(&Value::Int(3)), Err("expected Str, got Number".to_string()));
    assert_eq!(
        field(Kind::Bool, None).check_kind_and_choice(&Value::Str("x".into())),
        Err("expected Bool, got Str".to_string())
    );
    assert_eq!(field(Kind::Number, None).check_kind_and_choice(&Value::Float(1.5f64.to_bits())), Ok(()));
}

#[test]
fn a_text_must_be_one_of_the_choices() {
    let f = field(Kind::Str, Some(vec!["a", "b\"c"]));
    assert_eq!(f.check_kind_and_choice(&Value::Str("a".into())), Ok(()));
    assert_eq!(f.check_kind_and_choice(&Value::Str("b\"c".into())), Ok(()));
    assert_eq!(
        f.check_kind_and_choice(&Value::Str("z".into())),
        Err("must be one of [\"a\", \"b\\\"c\"]".to_string())
    );
    assert_eq!(
        field(Kind::Str, Some(vec![])).check_kind_and_choice(&Value::Str("z".into())),
        Err("must be one of []".to_string())
    );
    assert_eq!(field(Kind::Str, None).check_kind_and_choice(&Value::Str("z".into())), Ok(()));
}

#[test]
fn a_store_that_lists_a_module_twice_is_not_well_formed() {
    let mut s = Store::empty();
    s.set("m", "k", Value::Int(1));
    assert!(s.is_well_formed());
    let twin = s.modules[0].1.copied();
    s.modules.push(("m".to_string(), twin));
    assert!(!s.is_well_formed());
    let mut t = Store::empty();
    t.app.push(("a".to_string(), Value::Bool(true)));
    t.app.push(("a".to_string(), Value::Bool(false)));
    assert!(!t.is_well_formed());
}
