//! Working out what an install adds, one lookup at a time: the application looks a module up
//! by id under the module topic and pins the commit its manifest was read at; what is asked
//! for next, what is refused, and what the plan holds, is decided here.
//!
//! A required dependency that cannot be found fails the plan. An optional dependency of the
//! module asked for comes with everything it needs or not at all: one whose own dependency
//! cannot be found, or whose folder is taken, is left out and listed with the reason.
use vstd::prelude::*;

use crate::portable::text_view;
use crate::registry::review::{
    check_folders, folders_verdict, has_text, installed_dirs, installed_keys, planned_keys, planned_repos,
    InstallPlan, PlannedModule,
};
use crate::registry::install::installed_ids;
use crate::registry::{texts, InstalledModule, MODULE_TOPIC};
use crate::text::{joined, same_text};

verus! {

/// Which dependencies are being looked up: the required ones of the whole tree, then the
/// optional ones of the module asked for, one at a time.
#[derive(Clone, Copy, Debug, PartialEq, Eq, Structural)]
pub enum PlanStage {
    Required,
    Optional,
}

/// A plan being worked out.
pub struct PlanState {
    pub stage: PlanStage,
    /// The modules of the plan so far: the module asked for first.
    pub modules: Vec<PlannedModule>,
    /// The ids installed or in the plan.
    pub known: Vec<String>,
    /// The optional dependency being tried, if one is.
    pub trying: Option<String>,
    /// What the optional dependency being tried brings: itself first.
    pub trial: Vec<PlannedModule>,
    /// The ids installed, in the plan, or in the trial.
    pub trial_known: Vec<String>,
    /// The module whose dependencies are being walked, and which of them.
    pub cursor: usize,
    pub dep: usize,
    /// The optional dependencies of the module asked for, and the next to try.
    pub optional_ids: Vec<String>,
    pub next_opt: usize,
    /// Optional dependencies left out, with the reason.
    pub unavailable: Vec<(String, String)>,
    /// The name of the module asked for.
    pub root_name: String,
    pub installed: Vec<InstalledModule>,
}

/// What the application found for the id it was asked to look up.
pub enum PlanEvent {
    /// The module, pinned to the commit its manifest was read at.
    Found(PlannedModule),
    /// No module under the topic has that id.
    NotFound,
    /// The lookup failed, for this reason.
    Failed(String),
}

/// What the application does next.
pub enum PlanAction {
    /// Look up the module with this id and pin it.
    Resolve(String),
    /// The plan is complete: [`PlanState::into_plan`].
    Done,
    /// The plan fails, for this reason.
    Fail(String),
}

/// A plan being worked out, as the model speaks of it.
pub struct PlanView {
    pub stage: PlanStage,
    pub modules: Seq<PlannedModule>,
    pub known: Seq<Seq<char>>,
    pub trying: Option<Seq<char>>,
    pub trial: Seq<PlannedModule>,
    pub trial_known: Seq<Seq<char>>,
    pub cursor: int,
    pub dep: int,
    pub optional_ids: Seq<Seq<char>>,
    pub next_opt: int,
    pub unavailable: Seq<(Seq<char>, Seq<char>)>,
    pub root_name: String,
    pub installed: Seq<InstalledModule>,
}

/// An action as the model speaks of it.
pub enum PlanAct {
    Resolve(Seq<char>),
    Done,
    Fail(Seq<char>),
}

pub open spec fn pairs_view(v: Seq<(String, String)>) -> Seq<(Seq<char>, Seq<char>)> {
    v.map_values(|p: (String, String)| (p.0@, p.1@))
}

pub open spec fn view_of(st: PlanState) -> PlanView {
    PlanView {
        stage: st.stage,
        modules: st.modules@,
        known: texts(st.known@),
        trying: text_view(st.trying),
        trial: st.trial@,
        trial_known: texts(st.trial_known@),
        cursor: st.cursor as int,
        dep: st.dep as int,
        optional_ids: texts(st.optional_ids@),
        next_opt: st.next_opt as int,
        unavailable: pairs_view(st.unavailable@),
        root_name: st.root_name,
        installed: st.installed@,
    }
}

pub open spec fn act_of(a: PlanAction) -> PlanAct {
    match a {
        PlanAction::Resolve(id) => PlanAct::Resolve(id@),
        PlanAction::Done => PlanAct::Done,
        PlanAction::Fail(why) => PlanAct::Fail(why@),
    }
}

/// The modules whose dependencies are being walked: the trial's while one is tried.
pub open spec fn walk_of(v: PlanView) -> Seq<PlannedModule> {
    if v.trying is Some {
        v.trial
    } else {
        v.modules
    }
}

/// The ids that need no lookup in that walk.
pub open spec fn walk_known(v: PlanView) -> Seq<Seq<char>> {
    if v.trying is Some {
        v.trial_known
    } else {
        v.known
    }
}

pub open spec fn deps_of(p: PlannedModule) -> Seq<Seq<char>> {
    texts(p.manifest.dependencies@)
}

pub open spec fn m_stage(v: PlanView) -> int {
    if v.stage is Required {
        1
    } else {
        0
    }
}

pub open spec fn m_opt(v: PlanView) -> int {
    (if 0 <= v.next_opt < v.optional_ids.len() {
        v.optional_ids.len() - v.next_opt
    } else {
        0int
    }) + (if v.trying is Some {
        1int
    } else {
        0int
    })
}

pub open spec fn m_walk(v: PlanView) -> int {
    if 0 <= v.cursor < walk_of(v).len() {
        walk_of(v).len() - v.cursor
    } else {
        0
    }
}

pub open spec fn m_dep(v: PlanView) -> int {
    if 0 <= v.cursor < walk_of(v).len() && 0 <= v.dep < deps_of(walk_of(v)[v.cursor]).len() {
        deps_of(walk_of(v)[v.cursor]).len() - v.dep
    } else {
        0
    }
}

/// Whether a walk is going on: the required tree, or a trial that has its first module.
pub open spec fn walking(v: PlanView) -> bool {
    v.stage is Required || (v.trying is Some && v.trial.len() > 0)
}

/// A trial given up with reason `e`: nothing of it enters the plan.
pub open spec fn drop_trial(v: PlanView, o: Seq<char>, e: Seq<char>) -> PlanView {
    PlanView {
        unavailable: v.unavailable.push((o, e)),
        trying: None,
        trial: Seq::empty(),
        trial_known: Seq::empty(),
        cursor: 0,
        dep: 0,
        ..v
    }
}

/// A walked trial, whose folders were checked: its modules join the plan, or it is given up.
pub open spec fn end_trial(v: PlanView) -> PlanView {
    let o = v.trying->0;
    match folders_verdict(planned_keys(v.trial), planned_repos(v.modules), installed_keys(v.installed), installed_dirs(v.installed)) {
        Ok(()) => PlanView {
            modules: v.modules + v.trial,
            known: v.trial_known,
            trying: None,
            trial: Seq::empty(),
            trial_known: Seq::empty(),
            cursor: 0,
            dep: 0,
            ..v
        },
        Err(e) => drop_trial(v, o, e),
    }
}

/// Goes on from `v` until something must be looked up, or the plan is done or fails.
pub open spec fn advance(v: PlanView) -> (PlanView, PlanAct)
    decreases m_stage(v), m_opt(v), m_walk(v), m_dep(v),
{
    if walking(v) {
        let w = walk_of(v);
        if 0 <= v.cursor < w.len() {
            let ds = deps_of(w[v.cursor]);
            if 0 <= v.dep < ds.len() {
                if walk_known(v).contains(ds[v.dep]) {
                    advance(PlanView { dep: v.dep + 1, ..v })
                } else {
                    (v, PlanAct::Resolve(ds[v.dep]))
                }
            } else {
                advance(PlanView { cursor: v.cursor + 1, dep: 0, ..v })
            }
        } else if v.stage is Required {
            match folders_verdict(planned_keys(v.modules), Seq::empty(), installed_keys(v.installed), installed_dirs(v.installed)) {
                Err(e) => (v, PlanAct::Fail(e)),
                Ok(()) => advance(PlanView { stage: PlanStage::Optional, trying: None, cursor: 0, dep: 0, ..v }),
            }
        } else {
            advance(end_trial(v))
        }
    } else if v.trying is Some {
        (v, PlanAct::Resolve(v.trying->0))
    } else if 0 <= v.next_opt < v.optional_ids.len() {
        let o = v.optional_ids[v.next_opt];
        if v.known.contains(o) {
            advance(PlanView { next_opt: v.next_opt + 1, ..v })
        } else {
            (
                PlanView {
                    next_opt: v.next_opt + 1,
                    trying: Some(o),
                    trial: Seq::empty(),
                    trial_known: v.known,
                    cursor: 0,
                    dep: 0,
                    ..v
                },
                PlanAct::Resolve(o),
            )
        }
    } else {
        (v, PlanAct::Done)
    }
}

/// Whether `v` is waiting for the lookup of an id.
pub open spec fn asking(v: PlanView) -> bool {
    if walking(v) {
        0 <= v.cursor < walk_of(v).len() && 0 <= v.dep < deps_of(walk_of(v)[v.cursor]).len()
    } else {
        v.trying is Some && v.stage is Optional
    }
}

/// The id `v` waits for.
pub open spec fn asked(v: PlanView) -> Seq<char> {
    if walking(v) {
        deps_of(walk_of(v)[v.cursor])[v.dep]
    } else {
        v.trying->0
    }
}

/// What refusing a required dependency that no module under the topic has says.
pub open spec fn not_found_text(dep: Seq<char>, of: Seq<char>) -> Seq<char> {
    "dependency '"@ + dep + "' of '"@ + of + "' was not found among '"@ + MODULE_TOPIC@ + "' modules"@
}

/// What refusing a module found for a dependency that now calls itself otherwise says.
pub open spec fn renamed_dep_text(repo: Seq<char>, dep: Seq<char>, id: Seq<char>) -> Seq<char> {
    repo + " was found for dependency '"@ + dep + "' but its module.toml now says id = '"@ + id + "'"@
}

/// Why an optional dependency the topic does not have is left out.
pub open spec fn optional_not_found_text() -> Seq<char> {
    "not found among '"@ + MODULE_TOPIC@ + "' modules"@
}

/// Why an optional dependency that now calls itself otherwise is left out.
pub open spec fn renamed_optional_text(repo: Seq<char>, id: Seq<char>) -> Seq<char> {
    repo + " now says id = '"@ + id + "'"@
}

/// What `ev`, the answer to the lookup `v` waits for, makes of the plan.
pub open spec fn on_event(v: PlanView, ev: PlanEvent) -> (PlanView, PlanAct) {
    if !walking(v) {
        let o = v.trying->0;
        match ev {
            PlanEvent::Found(p) => if p.manifest.id@ == o {
                advance(
                    PlanView {
                        trial: seq![PlannedModule { optional: true, needed_by: Some(v.root_name), via_optional: true, ..p }],
                        trial_known: v.trial_known.push(o),
                        cursor: 0,
                        dep: 0,
                        ..v
                    },
                )
            } else {
                advance(drop_trial(v, o, renamed_optional_text(p.repo@, p.manifest.id@)))
            },
            PlanEvent::NotFound => advance(drop_trial(v, o, optional_not_found_text())),
            PlanEvent::Failed(e) => advance(drop_trial(v, o, e@)),
        }
    } else {
        let by = walk_of(v)[v.cursor].manifest;
        let d = deps_of(walk_of(v)[v.cursor])[v.dep];
        let outcome: Result<PlannedModule, Seq<char>> = match ev {
            PlanEvent::Found(p) => if p.manifest.id@ == d {
                Ok(PlannedModule { optional: v.trying is Some, needed_by: Some(by.name), via_optional: false, ..p })
            } else {
                Err(renamed_dep_text(p.repo@, d, p.manifest.id@))
            },
            PlanEvent::NotFound => Err(not_found_text(d, by.id@)),
            PlanEvent::Failed(e) => Err(e@),
        };
        match outcome {
            Ok(p) => if v.trying is Some {
                advance(PlanView { trial: v.trial.push(p), trial_known: v.trial_known.push(d), dep: v.dep + 1, ..v })
            } else {
                advance(PlanView { modules: v.modules.push(p), known: v.known.push(d), dep: v.dep + 1, ..v })
            },
            Err(e) => if v.trying is Some {
                advance(drop_trial(v, v.trying->0, e))
            } else {
                (v, PlanAct::Fail(e))
            },
        }
    }
}

/// Goes on until something must be looked up, or the plan is done or fails.
#[verifier::spinoff_prover]
#[verifier::rlimit(40)]
fn advance_exec(st: &mut PlanState) -> (a: PlanAction)
    ensures
        (view_of(*final(st)), act_of(a)) == advance(view_of(*old(st))),
{
    let ghost target = advance(view_of(*st));
    loop
        invariant
            advance(view_of(*st)) == target,
            target == advance(view_of(*old(st))),
        decreases m_stage(view_of(*st)), m_opt(view_of(*st)), m_walk(view_of(*st)), m_dep(view_of(*st)),
    {
        let ghost v = view_of(*st);
        let in_trial = st.trying.is_some();
        let walking = st.stage == PlanStage::Required || (in_trial && st.trial.len() > 0);
        if walking {
            let wlen = if in_trial {
                st.trial.len()
            } else {
                st.modules.len()
            };
            if st.cursor < wlen {
                let dlen = if in_trial {
                    st.trial[st.cursor].manifest.dependencies.len()
                } else {
                    st.modules[st.cursor].manifest.dependencies.len()
                };
                proof {
                    assert(deps_of(walk_of(v)[v.cursor]).len() == dlen);
                }
                if st.dep < dlen {
                    let d = if in_trial {
                        st.trial[st.cursor].manifest.dependencies[st.dep].clone()
                    } else {
                        st.modules[st.cursor].manifest.dependencies[st.dep].clone()
                    };
                    proof {
                        assert(deps_of(walk_of(v)[v.cursor])[v.dep] == d@);
                    }
                    let hit = if in_trial {
                        has_text(&st.trial_known, d.as_str())
                    } else {
                        has_text(&st.known, d.as_str())
                    };
                    if hit {
                        st.dep = st.dep + 1;
                        proof {
                            assert(view_of(*st) == PlanView { dep: v.dep + 1, ..v });
                        }
                    } else {
                        proof {
                            assert(walk_known(v) == (if in_trial { texts(st.trial_known@) } else { texts(st.known@) }));
                            assert(!walk_known(v).contains(d@));
                            assert(advance(v) == (v, PlanAct::Resolve(d@)));
                        }
                        return PlanAction::Resolve(d);
                    }
                } else {
                    st.cursor = st.cursor + 1;
                    st.dep = 0;
                    proof {
                        assert(view_of(*st) == PlanView { cursor: v.cursor + 1, dep: 0, ..v });
                    }
                }
            } else if st.stage == PlanStage::Required {
                let none: Vec<PlannedModule> = Vec::new();
                proof {
                    assert(planned_repos(none@) =~= Seq::<Seq<char>>::empty());
                }
                match check_folders(&st.modules, &none, &st.installed) {
                    Err(e) => {
                        proof {
                            assert(folders_verdict(planned_keys(v.modules), Seq::empty(), installed_keys(v.installed), installed_dirs(v.installed)) == Err::<(), Seq<char>>(e@));
                            assert(advance(v) == (v, PlanAct::Fail(e@)));
                        }
                        return PlanAction::Fail(e);
                    },
                    Ok(()) => {
                        st.stage = PlanStage::Optional;
                        st.trying = None;
                        st.cursor = 0;
                        st.dep = 0;
                        proof {
                            assert(view_of(*st) == PlanView {
                                stage: PlanStage::Optional,
                                trying: None,
                                cursor: 0,
                                dep: 0,
                                ..v
                            });
                        }
                    },
                }
            } else {
                let o = match &st.trying {
                    Some(o) => o.clone(),
                    None => String::new(),
                };
                let verdict = check_folders(&st.trial, &st.modules, &st.installed);
                let mut trial: Vec<PlannedModule> = Vec::new();
                std::mem::swap(&mut trial, &mut st.trial);
                let mut tk: Vec<String> = Vec::new();
                std::mem::swap(&mut tk, &mut st.trial_known);
                match verdict {
                    Ok(()) => {
                        st.modules.append(&mut trial);
                        st.known = tk;
                    },
                    Err(e) => {
                        st.unavailable.push((o, e));
                    },
                }
                st.trying = None;
                st.cursor = 0;
                st.dep = 0;
                proof {
                    assert(texts(st.trial_known@) =~= Seq::<Seq<char>>::empty());
                    assert(view_of(*st).modules =~= end_trial(v).modules);
                    assert(view_of(*st).unavailable =~= end_trial(v).unavailable);
                    assert(view_of(*st).trial =~= end_trial(v).trial);
                    assert(view_of(*st).trial_known =~= end_trial(v).trial_known);
                    assert(view_of(*st) == end_trial(v));
                }
            }
        } else if in_trial {
            let o = match &st.trying {
                Some(o) => o.clone(),
                None => String::new(),
            };
            return PlanAction::Resolve(o);
        } else if st.next_opt < st.optional_ids.len() {
            let o = st.optional_ids[st.next_opt].clone();
            if has_text(&st.known, o.as_str()) {
                st.next_opt = st.next_opt + 1;
                proof {
                    assert(view_of(*st) == PlanView { next_opt: v.next_opt + 1, ..v });
                }
            } else {
                st.next_opt = st.next_opt + 1;
                st.trying = Some(o.clone());
                st.trial = Vec::new();
                st.trial_known = st.known.clone();
                st.cursor = 0;
                st.dep = 0;
                proof {
                    assert(view_of(*st).trial =~= Seq::<PlannedModule>::empty());
                }
                return PlanAction::Resolve(o);
            }
        } else {
            return PlanAction::Done;
        }
    }
}

/// Gives up the trial of `o` with reason `e`.
fn drop_trial_exec(st: &mut PlanState, o: String, e: String)
    ensures
        view_of(*final(st)) == drop_trial(view_of(*old(st)), o@, e@),
{
    let ghost v = view_of(*st);
    st.unavailable.push((o, e));
    st.trying = None;
    st.trial = Vec::new();
    st.trial_known = Vec::new();
    st.cursor = 0;
    st.dep = 0;
    proof {
        assert(view_of(*st).unavailable =~= drop_trial(v, o@, e@).unavailable);
        assert(view_of(*st).trial =~= Seq::<PlannedModule>::empty());
        assert(view_of(*st).trial_known =~= Seq::<Seq<char>>::empty());
    }
}

fn quoted_id_text(head: &str, id: &str) -> (r: String)
    ensures
        r@ == head@ + " now says id = '"@ + id@ + "'"@,
{
    let mut r = joined(head, " now says id = '");
    r.append(id);
    r.append("'");
    r
}

/// The plan once the application has answered the lookup it was asked for with `ev`: the
/// next lookup, or the end — the plan done, or failed.
#[verifier::spinoff_prover]
pub fn plan_step(st: PlanState, ev: PlanEvent) -> (r: (PlanState, PlanAction))
    requires
        asking(view_of(st)),
    ensures
        (view_of(r.0), act_of(r.1)) == on_event(view_of(st), ev),
{
    let mut st = st;
    let ghost v = view_of(st);
    let in_trial = st.trying.is_some();
    let walking = st.stage == PlanStage::Required || (in_trial && st.trial.len() > 0);
    if !walking {
        let o = match &st.trying {
            Some(o) => o.clone(),
            None => String::new(),
        };
        match ev {
            PlanEvent::Found(p) => {
                if same_text(p.manifest.id.as_str(), o.as_str()) {
                    let by = st.root_name.clone();
                    let q = PlannedModule { optional: true, needed_by: Some(by), via_optional: true, ..p };
                    let ghost qv = q;
                    let mut trial: Vec<PlannedModule> = Vec::new();
                    trial.push(q);
                    st.trial = trial;
                    st.trial_known.push(o);
                    st.cursor = 0;
                    st.dep = 0;
                    proof {
                        assert(view_of(st).trial =~= seq![qv]);
                        assert(view_of(st).trial_known =~= v.trial_known.push(v.trying->0));
                    }
                } else {
                    let why = quoted_id_text(p.repo.as_str(), p.manifest.id.as_str());
                    drop_trial_exec(&mut st, o, why);
                }
            },
            PlanEvent::NotFound => {
                let mut why = joined("not found among '", MODULE_TOPIC);
                why.append("' modules");
                drop_trial_exec(&mut st, o, why);
            },
            PlanEvent::Failed(e) => {
                drop_trial_exec(&mut st, o, e);
            },
        }
        let a = advance_exec(&mut st);
        return (st, a);
    }
    let (by_name, by_id, d, dl) = if in_trial {
        let m = &st.trial[st.cursor].manifest;
        (m.name.clone(), m.id.clone(), m.dependencies[st.dep].clone(), m.dependencies.len())
    } else {
        let m = &st.modules[st.cursor].manifest;
        (m.name.clone(), m.id.clone(), m.dependencies[st.dep].clone(), m.dependencies.len())
    };
    proof {
        assert(d@ == deps_of(walk_of(v)[v.cursor])[v.dep]);
        assert(st.dep < dl);
    }
    let outcome: Result<PlannedModule, String> = match ev {
        PlanEvent::Found(p) => if same_text(p.manifest.id.as_str(), d.as_str()) {
            Ok(PlannedModule { optional: in_trial, needed_by: Some(by_name), via_optional: false, ..p })
        } else {
            let mut why = joined(p.repo.as_str(), " was found for dependency '");
            why.append(d.as_str());
            why.append("' but its module.toml now says id = '");
            why.append(p.manifest.id.as_str());
            why.append("'");
            Err(why)
        },
        PlanEvent::NotFound => {
            let mut why = joined("dependency '", d.as_str());
            why.append("' of '");
            why.append(by_id.as_str());
            why.append("' was not found among '");
            why.append(MODULE_TOPIC);
            why.append("' modules");
            Err(why)
        },
        PlanEvent::Failed(e) => Err(e),
    };
    match outcome {
        Ok(p) => {
            if in_trial {
                st.trial.push(p);
                st.trial_known.push(d);
            } else {
                st.modules.push(p);
                st.known.push(d);
            }
            st.dep = st.dep + 1;
            proof {
                assert(view_of(st).trial_known =~= (if in_trial { v.trial_known.push(d@) } else { v.trial_known }));
                assert(view_of(st).known =~= (if in_trial { v.known } else { v.known.push(d@) }));
            }
            let a = advance_exec(&mut st);
            (st, a)
        },
        Err(e) => {
            if in_trial {
                let o = match &st.trying {
                    Some(o) => o.clone(),
                    None => String::new(),
                };
                drop_trial_exec(&mut st, o, e);
                let a = advance_exec(&mut st);
                (st, a)
            } else {
                (st, PlanAction::Fail(e))
            }
        },
    }
}

/// The texts of `s` that are not empty, in order.
pub open spec fn nonempty_texts(s: Seq<Seq<char>>) -> Seq<Seq<char>>
    decreases s.len(),
{
    if s.len() == 0 {
        Seq::empty()
    } else if s.last().len() > 0 {
        nonempty_texts(s.drop_last()).push(s.last())
    } else {
        nonempty_texts(s.drop_last())
    }
}

/// A plan for the module `root`, just pinned, with `installed` installed: the module itself,
/// and nothing looked up yet.
pub open spec fn start_view(root: PlannedModule, installed: Seq<InstalledModule>) -> PlanView {
    PlanView {
        stage: PlanStage::Required,
        modules: seq![PlannedModule { optional: false, needed_by: None, via_optional: false, ..root }],
        known: installed_ids(installed).push(root.manifest.id@),
        trying: None,
        trial: Seq::empty(),
        trial_known: Seq::empty(),
        cursor: 0,
        dep: 0,
        optional_ids: nonempty_texts(texts(root.manifest.optional_dependencies@)),
        next_opt: 0,
        unavailable: Seq::empty(),
        root_name: root.manifest.name,
        installed,
    }
}

impl PlanState {
    /// Begins the plan for the module `root`, pinned to the commit its manifest was read at,
    /// with `installed` installed: the first lookup, or the end.
    pub fn new(root: PlannedModule, installed: Vec<InstalledModule>) -> (r: (PlanState, PlanAction))
        ensures
            (view_of(r.0), act_of(r.1)) == advance(start_view(root, installed@)),
    {
        let mut known: Vec<String> = Vec::new();
        let mut i: usize = 0;
        while i < installed.len()
            invariant
                i <= installed@.len(),
                texts(known@) == installed_ids(installed@).take(i as int),
            decreases installed@.len() - i,
        {
            let ghost before = texts(known@);
            known.push(installed[i].id.clone());
            proof {
                assert(texts(known@) =~= before.push(installed@[i as int].id@));
                assert(installed_ids(installed@).take(i + 1) =~= installed_ids(installed@).take(i as int).push(
                    installed@[i as int].id@,
                ));
            }
            i += 1;
        }
        proof {
            assert(installed_ids(installed@).take(i as int) =~= installed_ids(installed@));
        }
        let ghost k0 = texts(known@);
        known.push(root.manifest.id.clone());
        proof {
            assert(texts(known@) =~= k0.push(root.manifest.id@));
        }
        let ghost opts = texts(root.manifest.optional_dependencies@);
        let mut optional_ids: Vec<String> = Vec::new();
        let mut j: usize = 0;
        while j < root.manifest.optional_dependencies.len()
            invariant
                j <= root.manifest.optional_dependencies@.len(),
                opts == texts(root.manifest.optional_dependencies@),
                texts(optional_ids@) == nonempty_texts(opts.take(j as int)),
            decreases root.manifest.optional_dependencies@.len() - j,
        {
            let ghost before = texts(optional_ids@);
            proof {
                assert(opts.take(j + 1).drop_last() =~= opts.take(j as int));
                assert(opts.take(j + 1).last() == root.manifest.optional_dependencies@[j as int]@);
            }
            if root.manifest.optional_dependencies[j].unicode_len() > 0 {
                optional_ids.push(root.manifest.optional_dependencies[j].clone());
                proof {
                    assert(texts(optional_ids@) =~= before.push(root.manifest.optional_dependencies@[j as int]@));
                }
            }
            j += 1;
        }
        proof {
            assert(opts.take(j as int) =~= opts);
        }
        let root_name = root.manifest.name.clone();
        let first = PlannedModule { optional: false, needed_by: None, via_optional: false, ..root };
        let ghost fv = first;
        let mut modules: Vec<PlannedModule> = Vec::new();
        modules.push(first);
        let mut st = PlanState {
            stage: PlanStage::Required,
            modules,
            known,
            trying: None,
            trial: Vec::new(),
            trial_known: Vec::new(),
            cursor: 0,
            dep: 0,
            optional_ids,
            next_opt: 0,
            unavailable: Vec::new(),
            root_name,
            installed,
        };
        proof {
            assert(view_of(st).modules =~= seq![fv]);
            assert(view_of(st).trial =~= Seq::<PlannedModule>::empty());
            assert(view_of(st).trial_known =~= Seq::<Seq<char>>::empty());
            assert(view_of(st).unavailable =~= Seq::<(Seq<char>, Seq<char>)>::empty());
            assert(view_of(st) == start_view(root, installed@));
        }
        let a = advance_exec(&mut st);
        (st, a)
    }

    /// The plan worked out: its modules, the module asked for first, and the optional
    /// dependencies left out, with the reason.
    pub fn into_plan(self) -> (r: InstallPlan)
        ensures
            r.modules@ == view_of(self).modules,
            pairs_view(r.unavailable_optional@) == view_of(self).unavailable,
    {
        InstallPlan { modules: self.modules, unavailable_optional: self.unavailable }
    }
}

/// A plan for updating to `target`, just pinned, with `installed` installed (the module
/// itself among them): the new version, and nothing looked up yet. An update walks only the
/// required dependencies; its optional ones are not tried.
pub open spec fn update_start_view(target: PlannedModule, installed: Seq<InstalledModule>) -> PlanView {
    PlanView {
        stage: PlanStage::Required,
        modules: seq![PlannedModule { optional: false, needed_by: None, via_optional: false, ..target }],
        known: installed_ids(installed),
        trying: None,
        trial: Seq::empty(),
        trial_known: Seq::empty(),
        cursor: 0,
        dep: 0,
        optional_ids: Seq::empty(),
        next_opt: 0,
        unavailable: Seq::empty(),
        root_name: target.manifest.name,
        installed,
    }
}

impl PlanState {
    /// Begins the plan for updating to `target`, pinned to the commit its manifest was read
    /// at, with `installed` installed: the first lookup, or the end. Only the required
    /// dependencies that are not installed are added; no optional one is tried, so the plan
    /// lists none as unavailable.
    pub fn for_update(target: PlannedModule, installed: Vec<InstalledModule>) -> (r: (PlanState, PlanAction))
        ensures
            (view_of(r.0), act_of(r.1)) == advance(update_start_view(target, installed@)),
    {
        let mut known: Vec<String> = Vec::new();
        let mut i: usize = 0;
        while i < installed.len()
            invariant
                i <= installed@.len(),
                texts(known@) == installed_ids(installed@).take(i as int),
            decreases installed@.len() - i,
        {
            let ghost before = texts(known@);
            known.push(installed[i].id.clone());
            proof {
                assert(texts(known@) =~= before.push(installed@[i as int].id@));
                assert(installed_ids(installed@).take(i + 1) =~= installed_ids(installed@).take(i as int).push(
                    installed@[i as int].id@,
                ));
            }
            i += 1;
        }
        proof {
            assert(installed_ids(installed@).take(i as int) =~= installed_ids(installed@));
        }
        let root_name = target.manifest.name.clone();
        let first = PlannedModule { optional: false, needed_by: None, via_optional: false, ..target };
        let ghost fv = first;
        let mut modules: Vec<PlannedModule> = Vec::new();
        modules.push(first);
        let mut st = PlanState {
            stage: PlanStage::Required,
            modules,
            known,
            trying: None,
            trial: Vec::new(),
            trial_known: Vec::new(),
            cursor: 0,
            dep: 0,
            optional_ids: Vec::new(),
            next_opt: 0,
            unavailable: Vec::new(),
            root_name,
            installed,
        };
        proof {
            assert(view_of(st).modules =~= seq![fv]);
            assert(view_of(st).trial =~= Seq::<PlannedModule>::empty());
            assert(view_of(st).trial_known =~= Seq::<Seq<char>>::empty());
            assert(view_of(st).optional_ids =~= Seq::<Seq<char>>::empty());
            assert(view_of(st).unavailable =~= Seq::<(Seq<char>, Seq<char>)>::empty());
            assert(view_of(st) == update_start_view(target, installed@));
        }
        let a = advance_exec(&mut st);
        (st, a)
    }
}

/// A plan that tries no optional dependency: it has none to try, tries none now, and lists
/// none as unavailable.
pub open spec fn tries_no_optional(v: PlanView) -> bool {
    &&& v.optional_ids.len() == 0
    &&& v.trying is None
    &&& v.unavailable.len() == 0
}

proof fn lemma_advance_tries_no_optional(v: PlanView)
    requires
        tries_no_optional(v),
    ensures
        tries_no_optional(advance(v).0),
    decreases m_stage(v), m_opt(v), m_walk(v), m_dep(v),
{
    if walking(v) {
        let w = walk_of(v);
        if 0 <= v.cursor < w.len() {
            let ds = deps_of(w[v.cursor]);
            if 0 <= v.dep < ds.len() {
                if walk_known(v).contains(ds[v.dep]) {
                    lemma_advance_tries_no_optional(PlanView { dep: v.dep + 1, ..v });
                }
            } else {
                lemma_advance_tries_no_optional(PlanView { cursor: v.cursor + 1, dep: 0, ..v });
            }
        } else if v.stage is Required {
            match folders_verdict(planned_keys(v.modules), Seq::empty(), installed_keys(v.installed), installed_dirs(v.installed)) {
                Err(e) => {},
                Ok(()) => {
                    lemma_advance_tries_no_optional(PlanView { stage: PlanStage::Optional, trying: None, cursor: 0, dep: 0, ..v });
                },
            }
        }
    }
}

/// An update tries no optional dependency: from its start, and after every answer to a lookup
/// it asks for, its plan has none to try and lists none as unavailable.
pub proof fn an_update_tries_no_optional_dependency(target: PlannedModule, installed: Seq<InstalledModule>, v: PlanView, ev: PlanEvent)
    requires
        tries_no_optional(v),
        asking(v),
    ensures
        tries_no_optional(advance(update_start_view(target, installed)).0),
        tries_no_optional(on_event(v, ev).0),
{
    lemma_advance_tries_no_optional(update_start_view(target, installed));
    let by = walk_of(v)[v.cursor].manifest;
    let d = deps_of(walk_of(v)[v.cursor])[v.dep];
    match ev {
        PlanEvent::Found(p) => if p.manifest.id@ == d {
            let q = PlannedModule { optional: v.trying is Some, needed_by: Some(by.name), via_optional: false, ..p };
            lemma_advance_tries_no_optional(PlanView { modules: v.modules.push(q), known: v.known.push(d), dep: v.dep + 1, ..v });
        },
        _ => {},
    }
}

/// A required dependency that no module under the topic has fails the plan, naming it and the
/// module that needs it.
pub proof fn a_required_dependency_nobody_has_fails_the_plan(v: PlanView)
    requires
        asking(v),
        v.trying is None,
    ensures
        on_event(v, PlanEvent::NotFound).1 == PlanAct::Fail(not_found_text(asked(v), walk_of(v)[v.cursor].manifest.id@)),
{
}

/// An optional dependency comes with everything its trial brought, or not at all: a trial
/// given up adds none of its modules and is listed with its reason; a trial walked to its
/// end adds all of them, or — when a folder it needs is taken — none, and is listed.
pub proof fn an_optional_dependency_comes_whole_or_not_at_all(v: PlanView, o: Seq<char>, e: Seq<char>)
    requires
        v.trying == Some(o),
    ensures
        drop_trial(v, o, e).modules == v.modules,
        drop_trial(v, o, e).unavailable == v.unavailable.push((o, e)),
        end_trial(v).modules == v.modules + v.trial || (end_trial(v).modules == v.modules
            && end_trial(v).unavailable.len() == v.unavailable.len() + 1 && end_trial(v).unavailable.last().0 == o),
{
}

} // verus!
