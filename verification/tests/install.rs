use std::path::PathBuf;

use osap_host::registry::install::{
    install_step, manifest_difference, update_changes, Dest, InstallAction, InstallEvent, InstallStage, InstallState,
};
use osap_host::registry::review::ModuleManifest;
use osap_host::registry::{InstalledModule, Source};

fn texts_of(v: &[&str]) -> Vec<String> {
    v.iter().map(|s| s.to_string()).collect()
}

fn mf(id: &str, caps: &[&str], deps: &[&str], optional: &[&str]) -> ModuleManifest {
    ModuleManifest {
        id: id.to_string(),
        name: id.to_uppercase(),
        version: "2.0.0".to_string(),
        dependencies: texts_of(deps),
        optional_dependencies: texts_of(optional),
        capabilities: texts_of(caps),
        supported_os: Vec::new(),
        runs_here: true,
    }
}

fn inst(id: &str, caps: &[&str], deps: &[&str]) -> InstalledModule {
    InstalledModule {
        id: id.to_string(),
        name: id.to_uppercase(),
        version: "1.0.0".to_string(),
        dir: PathBuf::from(id),
        dependencies: texts_of(deps),
        optional_dependencies: Vec::new(),
        capabilities: texts_of(caps),
        source: Some(Source { repo: format!("o/{id}"), branch: "main".to_string(), sha: "f".repeat(40) }),
        supported_os: Vec::new(),
    }
}

#[test]
fn an_update_shows_what_it_adds() {
    let m = inst("com.t.root", &["input"], &["com.t.a"]);
    let installed = vec![inst("com.t.root", &[], &[]), inst("com.t.a", &[], &[]), inst("com.t.b", &[], &[]), inst("com.t.c", &[], &[])];
    let target = mf("com.t.root", &["input", "network", "screen"], &["com.t.a", "com.t.b", "com.t.new", ""], &["com.t.c"]);
    let (caps, deps) = update_changes(&m, "o/root", &target, &installed).expect("the same module");
    assert_eq!(caps, texts_of(&["network", "screen"]));
    assert_eq!(deps, vec![("com.t.b".to_string(), false), ("com.t.c".to_string(), true)]);
}

#[test]
fn an_update_that_renames_the_module_is_refused() {
    let m = inst("com.t.root", &[], &[]);
    let err = update_changes(&m, "o/root", &mf("com.t.other", &[], &[], &[]), &vec![]).expect_err("renamed");
    assert_eq!(
        err,
        "the new version of 'com.t.root' in o/root calls itself 'com.t.other'; uninstall it and install the new one instead"
    );
}

#[test]
fn the_first_difference_from_the_review_is_named() {
    let a = mf("com.t.a", &["input"], &["com.t.b"], &[]);
    assert_eq!(manifest_difference(&a, &mf("com.t.a", &["input"], &["com.t.b"], &[])), None);
    assert_eq!(manifest_difference(&a, &mf("com.t.z", &[], &[], &[])), Some("id"));
    assert_eq!(manifest_difference(&a, &mf("com.t.a", &["input", "network"], &[], &[])), Some("capabilities"));
    assert_eq!(manifest_difference(&a, &mf("com.t.a", &["input"], &[], &[])), Some("dependencies"));
    assert_eq!(manifest_difference(&a, &mf("com.t.a", &["input"], &["com.t.b"], &["com.t.c"])), Some("dependencies"));
    let mut v = mf("com.t.a", &["input"], &["com.t.b"], &[]);
    v.version = "9.0.0".to_string();
    assert_eq!(manifest_difference(&a, &v), Some("version"));
    let mut w = mf("com.t.a", &["input"], &["com.t.b"], &[]);
    w.runs_here = false;
    assert_eq!(manifest_difference(&a, &w), Some("module.toml"));
}

fn begin() -> (InstallState, InstallAction) {
    InstallState::new("o/a".to_string(), "a".to_string(), mf("com.t.a", &[], &[], &[]))
}

/// Drives the steps with `answers`, one per step asked, and returns the last state and action.
fn drive(answers: Vec<InstallEvent>) -> (InstallState, InstallAction) {
    let (mut st, mut act) = begin();
    for ev in answers {
        let (s, a) = install_step(st, ev);
        st = s;
        act = a;
    }
    (st, act)
}

#[test]
fn an_update_is_swapped_in_only_once_checked() {
    let (st, act) = begin();
    assert!(matches!(act, InstallAction::Download));
    let (st, act) = install_step(st, InstallEvent::Done);
    assert!(matches!(act, InstallAction::MakeStaging));
    let (st, act) = install_step(st, InstallEvent::Done);
    assert!(matches!(act, InstallAction::Unpack));
    let (st, act) = install_step(st, InstallEvent::Done);
    assert!(matches!(act, InstallAction::WriteSource));
    let (st, act) = install_step(st, InstallEvent::Done);
    assert!(matches!(act, InstallAction::Load));
    let (st, act) = install_step(st, InstallEvent::Loaded(mf("com.t.a", &[], &[], &[])));
    assert!(matches!(act, InstallAction::CheckDestination));
    let (st, act) = install_step(st, InstallEvent::Checked(true));
    assert!(matches!(act, InstallAction::MoveAside));
    let (st, act) = install_step(st, InstallEvent::Done);
    assert!(matches!(act, InstallAction::MoveIn));
    assert_eq!(st.progress.dest, Dest::Aside);
    let (st, act) = install_step(st, InstallEvent::Done);
    assert!(matches!(act, InstallAction::RemoveStaging));
    assert_eq!(st.progress.stage, InstallStage::Installed);
    assert_eq!(st.progress.dest, Dest::New);
}

#[test]
fn a_failed_update_leaves_the_installed_version() {
    let done = || InstallEvent::Done;
    let loaded = || InstallEvent::Loaded(mf("com.t.a", &[], &[], &[]));
    // The new version cannot be moved in; the old one goes back.
    let (st, act) = drive(vec![done(), done(), done(), done(), loaded(), InstallEvent::Checked(true), done(), InstallEvent::Failed("denied".into())]);
    assert!(matches!(act, InstallAction::MoveBack));
    let (st, act) = install_step(st, done());
    assert_eq!(st.progress.stage, InstallStage::Failed);
    assert_eq!(st.progress.dest, Dest::AsBefore);
    match act {
        InstallAction::Fail { why, keep_staging } => {
            assert_eq!(why, "could not move o/a into modules/a. Nothing in modules/a was changed.: denied");
            assert!(!keep_staging);
        }
        _ => panic!("not a failure"),
    }
    // Neither move works: the installed version is kept, and the error says where.
    let (st, act) = drive(vec![done(), done(), done(), done(), loaded(), InstallEvent::Checked(true), done(), InstallEvent::Failed("denied".into()), InstallEvent::Failed("busy".into())]);
    assert!(st.progress.kept_old);
    assert!(matches!(act, InstallAction::Fail { keep_staging: true, .. }));
    // A download that differs from the review is never swapped in.
    let (st, act) = drive(vec![done(), done(), done(), done(), InstallEvent::Loaded(mf("com.t.b", &[], &[], &[]))]);
    assert_eq!(st.progress.dest, Dest::AsBefore);
    match act {
        InstallAction::Fail { why, .. } => assert_eq!(
            why,
            "o/a was not installed: its downloaded module.toml differs from the one reviewed (id). Nothing in modules/a was changed."
        ),
        _ => panic!("not a failure"),
    }
    // Moving the installed version aside fails: it stays.
    let (st, act) = drive(vec![done(), done(), done(), done(), loaded(), InstallEvent::Checked(true), InstallEvent::Failed("open".into())]);
    assert_eq!(st.progress.dest, Dest::AsBefore);
    assert!(matches!(act, InstallAction::Fail { keep_staging: false, .. }));
}
