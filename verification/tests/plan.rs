use std::collections::HashMap;
use std::path::PathBuf;

use osap_host::registry::plan::{plan_step, PlanAction, PlanEvent, PlanState};
use osap_host::registry::review::{InstallPlan, ModuleManifest, PlannedModule};
use osap_host::registry::InstalledModule;

fn names(v: &[&str]) -> Vec<String> {
    v.iter().map(|s| s.to_string()).collect()
}

fn pinned(repo: &str, id: &str, deps: &[&str], optional: &[&str]) -> PlannedModule {
    PlannedModule {
        repo: repo.to_string(),
        branch: "main".to_string(),
        sha: "a".repeat(40),
        manifest: ModuleManifest {
            id: id.to_string(),
            name: id.to_uppercase(),
            version: "1.0.0".to_string(),
            dependencies: names(deps),
            optional_dependencies: names(optional),
            capabilities: Vec::new(),
            supported_os: Vec::new(),
            runs_here: true,
        },
        optional: false,
        needed_by: None,
        via_optional: false,
    }
}

fn had(id: &str, folder: &str) -> InstalledModule {
    InstalledModule {
        id: id.to_string(),
        name: id.to_uppercase(),
        version: "1.0.0".to_string(),
        dir: PathBuf::from("modules").join(folder),
        dependencies: Vec::new(),
        optional_dependencies: Vec::new(),
        capabilities: Vec::new(),
        source: None,
        supported_os: Vec::new(),
    }
}

/// Answers every lookup from `world` (id to the module found for it) until the plan ends.
fn plan_in(root: PlannedModule, world: &HashMap<&str, PlannedModule>, installed: Vec<InstalledModule>) -> Result<InstallPlan, String> {
    let (mut st, mut act) = PlanState::new(root, installed);
    loop {
        match act {
            PlanAction::Done => return Ok(st.into_plan()),
            PlanAction::Fail(why) => return Err(why),
            PlanAction::Resolve(id) => {
                let ev = match world.get(id.as_str()) {
                    Some(p) => PlanEvent::Found(PlannedModule { repo: p.repo.clone(), branch: p.branch.clone(), sha: p.sha.clone(), manifest: copy(&p.manifest), optional: false, needed_by: None, via_optional: false }),
                    None => PlanEvent::NotFound,
                };
                let (s, a) = plan_step(st, ev);
                st = s;
                act = a;
            }
        }
    }
}

fn copy(m: &ModuleManifest) -> ModuleManifest {
    ModuleManifest {
        id: m.id.clone(),
        name: m.name.clone(),
        version: m.version.clone(),
        dependencies: m.dependencies.clone(),
        optional_dependencies: m.optional_dependencies.clone(),
        capabilities: m.capabilities.clone(),
        supported_os: m.supported_os.clone(),
        runs_here: m.runs_here,
    }
}

fn ids(plan: &InstallPlan) -> Vec<String> {
    plan.modules.iter().map(|p| p.manifest.id.clone()).collect()
}

#[test]
fn a_plan_lists_every_module_the_install_adds_and_nothing_installed() {
    let mut world = HashMap::new();
    world.insert("com.t.a", pinned("o/a", "com.t.a", &["com.t.b", "com.t.have"], &[]));
    world.insert("com.t.b", pinned("o/b", "com.t.b", &[], &[]));
    world.insert("com.t.opt", pinned("o/opt", "com.t.opt", &["com.t.b", "com.t.d"], &[]));
    world.insert("com.t.d", pinned("o/d", "com.t.d", &[], &[]));
    let root = pinned("o/root", "com.t.root", &["com.t.a"], &["com.t.opt", ""]);
    let plan = plan_in(root, &world, vec![had("com.t.have", "have")]).expect("plan");
    assert_eq!(ids(&plan), names(&["com.t.root", "com.t.a", "com.t.b", "com.t.opt", "com.t.d"]));
    assert!(plan.unavailable_optional.is_empty());
    assert_eq!(plan.modules[1].needed_by.as_deref(), Some("COM.T.ROOT"));
    assert_eq!(plan.modules[2].needed_by.as_deref(), Some("COM.T.A"));
    assert!(plan.modules[3].optional && plan.modules[3].via_optional);
    assert!(plan.modules[4].optional && !plan.modules[4].via_optional);
    assert!(!plan.modules[0].optional && plan.modules[0].needed_by.is_none());
}

#[test]
fn a_required_dependency_nobody_publishes_fails_the_plan() {
    let mut world = HashMap::new();
    world.insert("com.t.a", pinned("o/a", "com.t.a", &["com.t.gone"], &[]));
    let root = pinned("o/root", "com.t.root", &["com.t.a"], &[]);
    let err = match plan_in(root, &world, vec![]) {
        Err(e) => e,
        Ok(_) => panic!("a dependency is missing"),
    };
    assert_eq!(err, "dependency 'com.t.gone' of 'com.t.a' was not found among 'osap-module' modules");
}

#[test]
fn an_optional_dependency_comes_whole_or_not_at_all() {
    let mut world = HashMap::new();
    world.insert("com.t.opt", pinned("o/opt", "com.t.opt", &["com.t.gone"], &[]));
    world.insert("com.t.fine", pinned("o/fine", "com.t.fine", &[], &[]));
    world.insert("com.t.renamed", pinned("o/renamed", "com.t.other", &[], &[]));
    let root = pinned("o/root", "com.t.root", &[], &["com.t.opt", "com.t.missing", "com.t.renamed", "com.t.fine"]);
    let plan = plan_in(root, &world, vec![]).expect("plan");
    assert_eq!(ids(&plan), names(&["com.t.root", "com.t.fine"]));
    assert_eq!(
        plan.unavailable_optional,
        vec![
            ("com.t.opt".to_string(), "dependency 'com.t.gone' of 'com.t.opt' was not found among 'osap-module' modules".to_string()),
            ("com.t.missing".to_string(), "not found among 'osap-module' modules".to_string()),
            ("com.t.renamed".to_string(), "o/renamed now says id = 'com.t.other'".to_string()),
        ]
    );
}

#[test]
fn an_optional_module_whose_folder_is_taken_is_left_out() {
    let mut world = HashMap::new();
    world.insert("com.t.opt", pinned("o/opt", "com.t.opt", &[], &[]));
    let root = pinned("o/root", "com.t.root", &[], &["com.t.opt"]);
    let plan = plan_in(root, &world, vec![had("com.platform.kontakt", "opt")]).expect("plan");
    assert_eq!(ids(&plan), names(&["com.t.root"]));
    assert_eq!(plan.unavailable_optional.len(), 1);
    assert!(plan.unavailable_optional[0].1.contains("holds another module"));
}

#[test]
fn an_update_walks_only_what_the_new_version_needs() {
    let mut world = HashMap::new();
    world.insert("com.t.new", pinned("o/new", "com.t.new", &[], &[]));
    world.insert("com.t.opt", pinned("o/opt", "com.t.opt", &[], &[]));
    let target = pinned("o/root", "com.t.root", &["com.t.have", "com.t.new"], &["com.t.opt"]);
    let installed = vec![had("com.t.root", "root"), had("com.t.have", "have")];
    let (mut st, mut act) = PlanState::for_update(target, installed);
    loop {
        match act {
            PlanAction::Done => break,
            PlanAction::Fail(why) => panic!("{why}"),
            PlanAction::Resolve(id) => {
                let p = world.get(id.as_str()).expect("known");
                let (s, a) = plan_step(st, PlanEvent::Found(PlannedModule { repo: p.repo.clone(), branch: p.branch.clone(), sha: p.sha.clone(), manifest: copy(&p.manifest), optional: false, needed_by: None, via_optional: false }));
                st = s;
                act = a;
            }
        }
    }
    let plan = st.into_plan();
    assert_eq!(ids(&plan), names(&["com.t.root", "com.t.new"]));
    assert!(plan.unavailable_optional.is_empty());
}
