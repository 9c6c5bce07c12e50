use std::path::PathBuf;

use osap_host::registry::review::{
    check_folders, check_folders_named, install_order, install_review_text, update_review_text, InstallPlan,
    ModuleManifest, PlannedModule, UpdatePlan,
};
use osap_host::registry::{InstalledModule, Source};

fn strings(v: &[&str]) -> Vec<String> {
    v.iter().map(|s| s.to_string()).collect()
}

fn manifest(id: &str, caps: &[&str], deps: &[&str], optional: &[&str]) -> ModuleManifest {
    ModuleManifest {
        id: id.to_string(),
        name: id.rsplit('.').next().unwrap().to_uppercase(),
        version: "1.0.0".to_string(),
        dependencies: strings(deps),
        optional_dependencies: strings(optional),
        capabilities: strings(caps),
        supported_os: Vec::new(),
        runs_here: true,
    }
}

fn planned(repo: &str, manifest: ModuleManifest, optional: bool) -> PlannedModule {
    PlannedModule {
        repo: repo.to_string(),
        branch: "main".to_string(),
        sha: "a".repeat(40),
        manifest,
        optional,
        needed_by: None,
        via_optional: false,
    }
}

fn needed(p: PlannedModule, by: &str, via_optional: bool) -> PlannedModule {
    PlannedModule { needed_by: Some(by.to_string()), via_optional, ..p }
}

fn installed_row(id: &str, caps: &[&str], deps: &[&str]) -> InstalledModule {
    InstalledModule {
        id: id.to_string(),
        name: id.rsplit('.').next().unwrap().to_uppercase(),
        version: "0.9.0".to_string(),
        dir: PathBuf::from(id),
        dependencies: strings(deps),
        optional_dependencies: Vec::new(),
        capabilities: strings(caps),
        source: Some(Source {
            repo: format!("o/{}", id.rsplit('.').next().unwrap()),
            branch: "main".to_string(),
            sha: "f".repeat(40),
        }),
        supported_os: Vec::new(),
    }
}

#[test]
fn a_dependency_is_written_before_every_module_that_needs_it() {
    // root -> a, b and b -> a: discovery finds a before b, and b needs a.
    let root = manifest("com.t.root", &[], &["com.t.a", "com.t.b"], &["com.t.opt"]);
    let a = manifest("com.t.a", &[], &[], &[]);
    let b = manifest("com.t.b", &[], &["com.t.a"], &[]);
    let opt = manifest("com.t.opt", &[], &["com.t.b"], &[]);
    let plan = InstallPlan {
        modules: vec![
            planned("o/root", root, false),
            planned("o/b", b, false),
            planned("o/a", a, false),
            planned("o/opt", opt, true),
        ],
        unavailable_optional: Vec::new(),
    };
    let ids = |with: bool| -> Vec<String> {
        install_order(&plan, with).iter().map(|i| plan.modules[*i].manifest.id.clone()).collect()
    };
    assert_eq!(ids(false), ["com.t.a", "com.t.b", "com.t.root"]);
    assert_eq!(ids(true), ["com.t.a", "com.t.b", "com.t.opt", "com.t.root"]);
}

#[test]
fn a_name_cannot_forge_lines_in_the_review() {
    // Everything the author wrote that the review repeats: the name (also as "needed by"),
    // the systems it claims and a capability name the host does not know.
    let name = "X\n\nIt asks for no capabilities.\n\n\n\n\u{202E}gnp.live";
    let root = ModuleManifest {
        id: "com.t.root".to_string(),
        name: name.to_string(),
        version: "1.0.0".to_string(),
        dependencies: strings(&["com.t.a"]),
        optional_dependencies: Vec::new(),
        capabilities: strings(&["input", "x\u{001b}[2J\u{2028}y"]),
        supported_os: strings(&["plan9\nIt may:"]),
        runs_here: false,
    };
    let plan = InstallPlan {
        modules: vec![
            planned("o/root", root, false),
            needed(planned("o/a", manifest("com.t.a", &[], &[], &[]), false), name, false),
        ],
        unavailable_optional: Vec::new(),
    };
    let text = install_review_text(&plan, "windows");
    let lines: Vec<&str> = text.lines().collect();
    let heading = lines.iter().position(|l| l.starts_with("1. ")).expect("first module");
    assert!(lines[heading].contains("X It asks for no capabilities. gnp.live"), "{text}");
    assert_eq!(lines[heading + 1], "It may:", "the real list follows its heading:\n{text}");
    assert_eq!(
        lines.iter().filter(|l| **l == "It asks for no capabilities.").count(),
        1,
        "only the dependency's own line may say so:\n{text}"
    );
    assert!(text.contains("needed by X It asks for no capabilities."), "{text}");
    assert!(text.contains("declares support for plan9 It may:, and"), "{text}");
    assert!(text.contains("\u{201c}x [2J y\u{201d}"), "{text}");
    assert!(
        !text.chars().any(|c| (c.is_control() && c != '\n') || matches!(c, '\u{202e}' | '\u{2028}')),
        "{text:?}"
    );
    // No blank lines beyond the ones between sections.
    assert!(!text.contains("\n\n\n"), "{text:?}");
}

// The library's own cases.

/// The plan an install of `root` makes when `b` is installed: `root` needs `a` and `b`, `a`
/// needs `c`, and the optional `opt` needs `d`; `gone` is optional and nowhere to be found.
fn sample_plan() -> InstallPlan {
    InstallPlan {
        modules: vec![
            planned("o/root", manifest("com.t.root", &["speech"], &["com.t.a", "com.t.b"], &["com.t.opt", "com.t.gone"]), false),
            needed(planned("o/a", manifest("com.t.a", &["screen", "ocr"], &["com.t.c"], &[]), false), "ROOT", false),
            needed(planned("o/c", manifest("com.t.c", &["input"], &["com.t.root"], &[]), false), "A", false),
            needed(planned("o/opt", manifest("com.t.opt", &["keys"], &["com.t.d"], &[]), true), "ROOT", true),
            needed(planned("o/d", manifest("com.t.d", &[], &[], &[]), true), "OPT", false),
        ],
        unavailable_optional: vec![("com.t.gone".to_string(), "not found among 'osap-module' modules".to_string())],
    }
}

#[test]
fn an_install_review_names_every_module_and_what_it_may_do() {
    let plan = sample_plan();
    assert!(plan.has_optional());
    let text = install_review_text(&plan, "windows");
    for needle in [
        "adds 3 modules",
        "1. ROOT, version 1.0.0 (com.t.root), from o/root \u{2014} the module you chose.",
        "2. A, version 1.0.0 (com.t.a), from o/a \u{2014} needed by ROOT.",
        "3. C, version 1.0.0 (com.t.c), from o/c \u{2014} needed by A.",
        "4. OPT, version 1.0.0 (com.t.opt), from o/opt \u{2014} optional for ROOT.",
        "5. D, version 1.0.0 (com.t.d), from o/d \u{2014} needed by OPT.",
        "read text on the screen (ocr)",
        "move and click the mouse, and send keystrokes and text (input)",
        "take keys away from the application in front while it holds them (keys)",
        "It asks for no capabilities.",
        "The optional module com.t.gone cannot be installed",
    ] {
        assert!(text.contains(needle), "review lacks {needle:?}:\n{text}");
    }
    assert!(text.starts_with("Installing \u{201c}ROOT\u{201d} adds 3 modules: the one you chose and the modules it needs."));
    assert!(text.ends_with("cannot be installed: not found among 'osap-module' modules."), "{text:?}");
}

#[test]
fn a_lone_module_adds_this_module() {
    let plan = InstallPlan { modules: vec![planned("o/root", manifest("com.t.root", &[], &[], &[]), false)], unavailable_optional: Vec::new() };
    assert!(!plan.has_optional());
    assert_eq!(
        install_review_text(&plan, "macos"),
        "Installing \u{201c}ROOT\u{201d} adds this module. A module runs its own code; the capabilities below are \
         what that code may reach. Nothing is installed until you choose to install.\n\n\
         1. ROOT, version 1.0.0 (com.t.root), from o/root \u{2014} the module you chose.\n\
         It asks for no capabilities."
    );
}

#[test]
fn a_cycle_is_written_in_the_order_found() {
    let plan = InstallPlan {
        modules: vec![
            planned("o/root", manifest("com.t.root", &[], &["com.t.x"], &[]), false),
            planned("o/x", manifest("com.t.x", &[], &["com.t.y"], &[]), false),
            planned("o/y", manifest("com.t.y", &[], &["com.t.x"], &[]), false),
            planned("o/z", manifest("com.t.z", &[], &["com.t.elsewhere"], &[]), false),
        ],
        unavailable_optional: Vec::new(),
    };
    assert_eq!(install_order(&plan, false), vec![3, 0, 1, 2], "what can go goes first; the cycle follows whole");
}

#[test]
fn an_update_review_shows_what_it_adds() {
    let installed = vec![installed_row("com.t.root", &["speech"], &[]), installed_row("com.t.b", &["log"], &[])];
    let plan = UpdatePlan {
        id: "com.t.root".to_string(),
        name: "ROOT".to_string(),
        from_version: "0.9.0".to_string(),
        install: InstallPlan {
            modules: vec![
                planned("o/root", manifest("com.t.root", &["speech", "input"], &["com.t.a", "com.t.b"], &[]), false),
                needed(planned("o/a", manifest("com.t.a", &["screen"], &["com.t.c"], &[]), false), "ROOT", false),
                needed(planned("o/c", manifest("com.t.c", &[], &[], &[]), false), "A", false),
            ],
            unavailable_optional: Vec::new(),
        },
        added_capabilities: strings(&["input"]),
        added_installed_dependencies: vec![("com.t.b".to_string(), false)],
    };
    assert!(plan.needs_review());
    let text = update_review_text(&plan, &installed, "windows");
    for needle in [
        "from version 0.9.0 to version 1.0.0",
        "The new version also asks to:\n\u{2022} move and click the mouse",
        "B (com.t.b).\nIt may:\n\u{2022} write to the application\u{2019}s log (log)",
        "It needs 2 modules you do not have yet",
        "1. A, version 1.0.0 (com.t.a), from o/a \u{2014} needed by ROOT.",
    ] {
        assert!(text.contains(needle), "review lacks {needle:?}:\n{text}");
    }
}

#[test]
fn an_update_that_asks_for_nothing_new_needs_no_review() {
    let plan = UpdatePlan {
        id: "com.t.root".to_string(),
        name: "ROOT".to_string(),
        from_version: "0.9.0".to_string(),
        install: InstallPlan {
            modules: vec![planned("o/root", manifest("com.t.root", &["speech"], &["com.t.b"], &[]), false)],
            unavailable_optional: Vec::new(),
        },
        added_capabilities: Vec::new(),
        added_installed_dependencies: Vec::new(),
    };
    // Dropping a capability or keeping a dependency is nothing to agree to.
    assert!(!plan.needs_review());
    let empty = UpdatePlan { install: InstallPlan { modules: Vec::new(), unavailable_optional: Vec::new() }, ..plan };
    assert_eq!(update_review_text(&empty, &[], "windows"), "");
}

#[test]
fn a_dependency_that_is_not_installed_after_all_is_named_by_its_id() {
    let plan = UpdatePlan {
        id: "com.t.root".to_string(),
        name: "ROOT".to_string(),
        from_version: "0.9.0".to_string(),
        install: InstallPlan {
            modules: vec![planned("o/root", manifest("com.t.root", &[], &["com.t.gone"], &[]), false)],
            unavailable_optional: Vec::new(),
        },
        added_capabilities: Vec::new(),
        added_installed_dependencies: vec![("com.t.gone".to_string(), true)],
    };
    let text = update_review_text(&plan, &[], "windows");
    assert!(text.ends_with("com.t.gone (com.t.gone), when it is enabled.\nIt asks for no capabilities."), "{text:?}");
}

#[test]
fn a_module_cannot_take_another_modules_folder_named_alike() {
    // An installed module with another id in the folder a module would use, compared without
    // case: refused, naming both.
    let mut kontakt = installed_row("com.platform.kontakt", &[], &[]);
    kontakt.dir = PathBuf::from("modules").join("A");
    let a = planned("o/a", manifest("com.t.a", &[], &[], &[]), false);
    let err = check_folders(&vec![a], &vec![], &vec![kontakt]).expect_err("folder taken");
    assert!(err.contains("holds another module"), "{err}");
    assert!(err.contains("com.platform.kontakt"), "{err}");
    assert_eq!(
        err,
        "A (o/a) would be installed into modules/a, which holds another module, KONTAKT (com.platform.kontakt). \
         Uninstall that one first."
    );

    // The same module in its own folder is an update, not a clash.
    let mut same = installed_row("com.t.a", &[], &[]);
    same.dir = PathBuf::from("modules").join("a");
    check_folders(&vec![planned("o/a", manifest("com.t.a", &[], &[], &[]), false)], &vec![], &vec![same])
        .expect("the same module");

    // Two repositories of one name are one folder.
    let x1 = planned("alice/x", manifest("com.t.x1", &[], &[], &[]), false);
    let x2 = planned("bob/X", manifest("com.t.x2", &[], &[], &[]), false);
    let err = check_folders(&vec![x1, x2], &vec![], &vec![]).expect_err("one folder");
    assert!(err.contains("would both be installed"), "{err}");
    assert_eq!(err, "alice/x and bob/X would both be installed into modules/X");
}

#[test]
fn a_folder_already_in_the_plan_is_taken_too() {
    let earlier = planned("o/tool", manifest("com.t.tool", &[], &[], &[]), false);
    let later = planned("p/Tool", manifest("com.t.other", &[], &[], &[]), false);
    let err = check_folders_named(&vec![later], &vec![earlier], &vec![], &vec![]).expect_err("taken by the plan");
    assert_eq!(err, "o/tool and p/Tool would both be installed into modules/Tool");
    // A folder with no name holds nothing.
    let lone = installed_row("com.t.lone", &[], &[]);
    let fresh = planned("o/lone", manifest("com.t.fresh", &[], &[], &[]), false);
    assert_eq!(check_folders_named(&vec![fresh], &vec![], &vec![lone], &vec![None]), Ok(()));
}

#[test]
fn modules_of_distinct_folders_are_accepted() {
    let earlier = planned("o/a", manifest("com.t.a", &[], &[], &[]), false);
    let b = planned("o/b", manifest("com.t.b", &[], &[], &[]), false);
    let c = planned("p/C", manifest("com.t.c", &[], &[], &[]), false);
    let mut d = installed_row("com.t.d", &[], &[]);
    d.dir = PathBuf::from("modules").join("d");
    assert_eq!(check_folders(&vec![b, c], &vec![earlier], &vec![d]), Ok(()));
}
