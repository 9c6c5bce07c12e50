//! What an install or an update does, decided here and carried out by the application: what a
//! new version adds, whether a download is the manifest that was reviewed, and the steps that
//! put a module in place so that a failure leaves the installed version as it was.
use vstd::prelude::*;

use crate::registry::review::{has_text, ModuleManifest};
use crate::registry::{texts, InstalledModule};
use crate::text::{joined, same_text};
use vstd::string::StringExecFns;

verus! {

/// The capabilities of `target` that `had` does not list, in `target`'s order.
pub open spec fn added_capabilities_of(target: Seq<Seq<char>>, had: Seq<Seq<char>>) -> Seq<Seq<char>>
    decreases target.len(),
{
    if target.len() == 0 {
        Seq::empty()
    } else {
        let rest = added_capabilities_of(target.drop_last(), had);
        if had.contains(target.last()) {
            rest
        } else {
            rest.push(target.last())
        }
    }
}

/// A new version's dependencies, each with whether it is optional: the required ones, then
/// the optional ones.
pub open spec fn tagged_dependencies(required: Seq<Seq<char>>, optional: Seq<Seq<char>>) -> Seq<(Seq<char>, bool)> {
    required.map_values(|d: Seq<char>| (d, false)) + optional.map_values(|d: Seq<char>| (d, true))
}

/// Of the tagged dependencies `ts`, those with an id, not declared `before`, and installed
/// (`have`), in order.
pub open spec fn added_installed_of(ts: Seq<(Seq<char>, bool)>, before: Seq<Seq<char>>, have: Seq<Seq<char>>) -> Seq<(Seq<char>, bool)>
    decreases ts.len(),
{
    if ts.len() == 0 {
        Seq::empty()
    } else {
        let rest = added_installed_of(ts.drop_last(), before, have);
        let d = ts.last().0;
        if d.len() > 0 && !before.contains(d) && have.contains(d) {
            rest.push(ts.last())
        } else {
            rest
        }
    }
}

/// The ids of installed modules.
pub open spec fn installed_ids(ms: Seq<InstalledModule>) -> Seq<Seq<char>> {
    ms.map_values(|m: InstalledModule| m.id@)
}

/// What refusing a new version that calls itself by another id says.
pub open spec fn renamed_text(id: Seq<char>, repo: Seq<char>, new_id: Seq<char>) -> Seq<char> {
    "the new version of '"@ + id + "' in "@ + repo + " calls itself '"@ + new_id
        + "'; uninstall it and install the new one instead"@
}

/// The (id, optional) pairs as text.
pub open spec fn pair_texts(v: Seq<(String, bool)>) -> Seq<(Seq<char>, bool)> {
    v.map_values(|p: (String, bool)| (p.0@, p.1))
}

fn added_capabilities(target: &Vec<String>, had: &Vec<String>) -> (r: Vec<String>)
    ensures
        texts(r@) == added_capabilities_of(texts(target@), texts(had@)),
{
    let mut r: Vec<String> = Vec::new();
    let mut i: usize = 0;
    while i < target.len()
        invariant
            i <= target@.len(),
            texts(r@) == added_capabilities_of(texts(target@).take(i as int), texts(had@)),
        decreases target@.len() - i,
    {
        let ghost before = texts(r@);
        proof {
            assert(texts(target@).take(i + 1).drop_last() =~= texts(target@).take(i as int));
            assert(texts(target@).take(i + 1).last() == target@[i as int]@);
        }
        if !has_text(had, target[i].as_str()) {
            r.push(target[i].clone());
            proof {
                assert(texts(r@) =~= before.push(target@[i as int]@));
            }
        }
        i += 1;
    }
    proof {
        assert(texts(target@).take(target@.len() as int) =~= texts(target@));
    }
    r
}

fn installed_id_list(installed: &Vec<InstalledModule>) -> (r: Vec<String>)
    ensures
        texts(r@) == installed_ids(installed@),
{
    let mut r: Vec<String> = Vec::new();
    let mut i: usize = 0;
    while i < installed.len()
        invariant
            i <= installed@.len(),
            texts(r@) == installed_ids(installed@).take(i as int),
        decreases installed@.len() - i,
    {
        let ghost before = texts(r@);
        r.push(installed[i].id.clone());
        proof {
            assert(texts(r@) =~= before.push(installed@[i as int].id@));
            assert(installed_ids(installed@).take(i + 1) =~= installed_ids(installed@).take(i as int).push(
                installed@[i as int].id@,
            ));
        }
        i += 1;
    }
    proof {
        assert(installed_ids(installed@).take(i as int) =~= installed_ids(installed@));
    }
    r
}

fn tagged(required: &Vec<String>, optional: &Vec<String>) -> (r: Vec<(String, bool)>)
    ensures
        pair_texts(r@) == tagged_dependencies(texts(required@), texts(optional@)),
{
    let ghost want = tagged_dependencies(texts(required@), texts(optional@));
    let mut r: Vec<(String, bool)> = Vec::new();
    let mut i: usize = 0;
    while i < required.len()
        invariant
            i <= required@.len(),
            want == tagged_dependencies(texts(required@), texts(optional@)),
            pair_texts(r@) == want.take(i as int),
        decreases required@.len() - i,
    {
        let ghost before = pair_texts(r@);
        r.push((required[i].clone(), false));
        proof {
            assert(want[i as int] == (required@[i as int]@, false));
            assert(pair_texts(r@) =~= before.push(want[i as int]));
            assert(want.take(i + 1) =~= want.take(i as int).push(want[i as int]));
        }
        i += 1;
    }
    let mut j: usize = 0;
    while j < optional.len()
        invariant
            j <= optional@.len(),
            want == tagged_dependencies(texts(required@), texts(optional@)),
            want.len() == required@.len() + optional@.len(),
            pair_texts(r@) == want.take(required@.len() + j),
        decreases optional@.len() - j,
    {
        let ghost before = pair_texts(r@);
        let ghost at = required@.len() + j;
        r.push((optional[j].clone(), true));
        proof {
            assert(want[at] == (optional@[j as int]@, true));
            assert(pair_texts(r@) =~= before.push(want[at]));
            assert(want.take(at + 1) =~= want.take(at).push(want[at]));
        }
        j += 1;
    }
    proof {
        assert(want.take(want.len() as int) =~= want);
    }
    r
}

/// What updating the installed module `m` to the manifest `target` (read from `repo`) adds,
/// given everything `installed`: the capabilities `target` asks for that `m` did not, in
/// `target`'s order; and the dependencies `target` declares — required ones, then optional
/// ones, each with whether it is optional — that `m` did not declare and that are already
/// installed, so are not downloaded but now run for it. Refused when `target` calls itself by
/// another id than `m`.
pub fn update_changes(
    m: &InstalledModule,
    repo: &str,
    target: &ModuleManifest,
    installed: &Vec<InstalledModule>,
) -> (r: Result<(Vec<String>, Vec<(String, bool)>), String>)
    ensures
        (r is Err) == (target.id@ != m.id@),
        r matches Err(e) ==> e@ == renamed_text(m.id@, repo@, target.id@),
        r matches Ok(p) ==> texts(p.0@) == added_capabilities_of(texts(target.capabilities@), texts(m.capabilities@))
            && pair_texts(p.1@) == added_installed_of(
            tagged_dependencies(texts(target.dependencies@), texts(target.optional_dependencies@)),
            texts(m.dependencies@) + texts(m.optional_dependencies@),
            installed_ids(installed@),
        ),
{
    if !same_text(target.id.as_str(), m.id.as_str()) {
        let mut e = joined("the new version of '", m.id.as_str());
        e.append("' in ");
        e.append(repo);
        e.append(" calls itself '");
        e.append(target.id.as_str());
        e.append("'; uninstall it and install the new one instead");
        return Err(e);
    }
    let caps = added_capabilities(&target.capabilities, &m.capabilities);
    let have = installed_id_list(installed);
    let mut before: Vec<String> = m.dependencies.clone();
    let mut more = m.optional_dependencies.clone();
    before.append(&mut more);
    let ts = tagged(&target.dependencies, &target.optional_dependencies);
    let ghost bv = texts(before@);
    proof {
        assert(bv =~= texts(m.dependencies@) + texts(m.optional_dependencies@));
    }
    let mut out: Vec<(String, bool)> = Vec::new();
    let mut i: usize = 0;
    while i < ts.len()
        invariant
            i <= ts@.len(),
            bv == texts(before@),
            pair_texts(out@) == added_installed_of(pair_texts(ts@).take(i as int), bv, texts(have@)),
        decreases ts@.len() - i,
    {
        let ghost prev = pair_texts(out@);
        proof {
            assert(pair_texts(ts@).take(i + 1).drop_last() =~= pair_texts(ts@).take(i as int));
            assert(pair_texts(ts@).take(i + 1).last() == (ts@[i as int].0@, ts@[i as int].1));
        }
        let d = ts[i].0.as_str();
        if d.unicode_len() > 0 && !has_text(&before, d) && has_text(&have, d) {
            out.push((ts[i].0.clone(), ts[i].1));
            proof {
                assert(pair_texts(out@) =~= prev.push((ts@[i as int].0@, ts@[i as int].1)));
            }
        }
        i += 1;
    }
    proof {
        assert(pair_texts(ts@).take(ts@.len() as int) =~= pair_texts(ts@));
    }
    Ok((caps, out))
}

/// Whether `a` and `b` list the same texts, in the same order.
fn same_texts(a: &Vec<String>, b: &Vec<String>) -> (r: bool)
    ensures
        r == (texts(a@) == texts(b@)),
{
    if a.len() != b.len() {
        proof {
            assert(texts(a@).len() != texts(b@).len());
        }
        return false;
    }
    let mut i: usize = 0;
    while i < a.len()
        invariant
            i <= a@.len(),
            a@.len() == b@.len(),
            forall|k: int| 0 <= k < i ==> a@[k]@ == b@[k]@,
        decreases a@.len() - i,
    {
        if !same_text(a[i].as_str(), b[i].as_str()) {
            proof {
                assert(texts(a@)[i as int] != texts(b@)[i as int]);
            }
            return false;
        }
        i += 1;
    }
    proof {
        assert(texts(a@) =~= texts(b@));
    }
    true
}

/// The first field in which the manifest installed differs from the one reviewed, or `None`
/// when they agree in every field. The fields a review shows are named; any other difference
/// is the manifest's.
pub open spec fn difference_of(reviewed: ModuleManifest, got: ModuleManifest) -> Option<Seq<char>> {
    if reviewed.id@ != got.id@ {
        Some("id"@)
    } else if reviewed.name@ != got.name@ {
        Some("name"@)
    } else if reviewed.version@ != got.version@ {
        Some("version"@)
    } else if texts(reviewed.capabilities@) != texts(got.capabilities@) {
        Some("capabilities"@)
    } else if texts(reviewed.dependencies@) != texts(got.dependencies@) || texts(reviewed.optional_dependencies@)
        != texts(got.optional_dependencies@) {
        Some("dependencies"@)
    } else if texts(reviewed.supported_os@) != texts(got.supported_os@) {
        Some("supported_os"@)
    } else if reviewed.runs_here != got.runs_here {
        Some("module.toml"@)
    } else {
        None
    }
}

/// The first field in which the manifest that was downloaded differs from the one that was
/// reviewed, or `None` when it is the same manifest: what was reviewed is what may be
/// installed.
pub fn manifest_difference(reviewed: &ModuleManifest, got: &ModuleManifest) -> (r: Option<&'static str>)
    ensures
        match r {
            Some(w) => difference_of(*reviewed, *got) == Some(w@),
            None => difference_of(*reviewed, *got) is None,
        },
{
    if !same_text(reviewed.id.as_str(), got.id.as_str()) {
        Some("id")
    } else if !same_text(reviewed.name.as_str(), got.name.as_str()) {
        Some("name")
    } else if !same_text(reviewed.version.as_str(), got.version.as_str()) {
        Some("version")
    } else if !same_texts(&reviewed.capabilities, &got.capabilities) {
        Some("capabilities")
    } else if !same_texts(&reviewed.dependencies, &got.dependencies) || !same_texts(
        &reviewed.optional_dependencies,
        &got.optional_dependencies,
    ) {
        Some("dependencies")
    } else if !same_texts(&reviewed.supported_os, &got.supported_os) {
        Some("supported_os")
    } else if reviewed.runs_here != got.runs_here {
        Some("module.toml")
    } else {
        None
    }
}

/// How far putting one module in place has come.
#[derive(Clone, Copy, Debug, PartialEq, Eq, Structural)]
pub enum InstallStage {
    Downloading,
    MakingStaging,
    Unpacking,
    WritingSource,
    Loading,
    CheckingDestination,
    MovingAside,
    MovingIn,
    MovingBack,
    Installed,
    Failed,
}

/// What the module's folder holds, against what it held when the install began.
#[derive(Clone, Copy, Debug, PartialEq, Eq, Structural)]
pub enum Dest {
    /// What it held: the installed version, or nothing.
    AsBefore,
    /// Nothing: the installed version was moved into the staging folder.
    Aside,
    /// The new version.
    New,
}

/// The install's progress.
#[derive(Clone, Copy, Debug, PartialEq, Eq, Structural)]
pub struct Progress {
    pub stage: InstallStage,
    /// Whether a version was installed in the folder.
    pub had_old: bool,
    pub dest: Dest,
    /// Whether the manifest downloaded was found to be the one reviewed.
    pub matched: bool,
    /// Whether the installed version was left in the staging folder, neither moving back.
    pub kept_old: bool,
}

/// Putting the module of `repo`, reviewed as `reviewed`, into `modules/<folder>`.
pub struct InstallState {
    pub progress: Progress,
    pub repo: String,
    pub folder: String,
    pub reviewed: ModuleManifest,
    /// Why moving the new version in failed, while the installed one is moved back.
    pub pending: String,
}

/// What the application reports of the step it was asked to take.
pub enum InstallEvent {
    /// It was done.
    Done,
    /// It failed, for this reason.
    Failed(String),
    /// The staged module was loaded; its manifest.
    Loaded(ModuleManifest),
    /// The folder may be written; whether it holds the installed version of this module.
    Checked(bool),
}

/// The step the application takes next.
pub enum InstallAction {
    /// Download the pinned commit.
    Download,
    /// Create the modules folder and a staging folder beside the module's.
    MakeStaging,
    /// Unpack the download into the staging folder.
    Unpack,
    /// Record where it came from in the staged copy.
    WriteSource,
    /// Load the staged copy.
    Load,
    /// Check that the folder may be written.
    CheckDestination,
    /// Move the installed version into the staging folder.
    MoveAside,
    /// Move the new version into the module's folder.
    MoveIn,
    /// Move the installed version back into the module's folder.
    MoveBack,
    /// Done: remove the staging folder, which holds the old version if there was one.
    RemoveStaging,
    /// Stop with this error, removing the staging folder unless it is to be kept.
    Fail { why: String, keep_staging: bool },
}

/// An action as the model speaks of it.
pub enum Act {
    Download,
    MakeStaging,
    Unpack,
    WriteSource,
    Load,
    CheckDestination,
    MoveAside,
    MoveIn,
    MoveBack,
    RemoveStaging,
    Fail(Seq<char>, bool),
}

pub open spec fn act_of(a: InstallAction) -> Act {
    match a {
        InstallAction::Download => Act::Download,
        InstallAction::MakeStaging => Act::MakeStaging,
        InstallAction::Unpack => Act::Unpack,
        InstallAction::WriteSource => Act::WriteSource,
        InstallAction::Load => Act::Load,
        InstallAction::CheckDestination => Act::CheckDestination,
        InstallAction::MoveAside => Act::MoveAside,
        InstallAction::MoveIn => Act::MoveIn,
        InstallAction::MoveBack => Act::MoveBack,
        InstallAction::RemoveStaging => Act::RemoveStaging,
        InstallAction::Fail { why, keep_staging } => Act::Fail(why@, keep_staging),
    }
}

/// What every error before the swap adds: the folder was not touched.
pub open spec fn unchanged_text(folder: Seq<char>) -> Seq<char> {
    "Nothing in modules/"@ + folder + " was changed."@
}

/// Whether `ev` is an answer to what a stage asked.
pub open spec fn answers(stage: InstallStage, ev: InstallEvent) -> bool {
    match ev {
        InstallEvent::Failed(_) => true,
        InstallEvent::Done => stage != InstallStage::Loading && stage != InstallStage::CheckingDestination,
        InstallEvent::Loaded(_) => stage == InstallStage::Loading,
        InstallEvent::Checked(_) => stage == InstallStage::CheckingDestination,
    }
}

pub open spec fn failed(p: Progress, dest: Dest, kept: bool) -> Progress {
    Progress { stage: InstallStage::Failed, dest, kept_old: kept, ..p }
}

pub open spec fn at(p: Progress, stage: InstallStage) -> Progress {
    Progress { stage, ..p }
}

/// The next progress, pending error and action after `ev` answered the step of progress `p`.
pub open spec fn install_next(
    p: Progress,
    pending: Seq<char>,
    repo: Seq<char>,
    folder: Seq<char>,
    reviewed: ModuleManifest,
    ev: InstallEvent,
) -> (Progress, Seq<char>, Act) {
    let unchanged = unchanged_text(folder);
    match (p.stage, ev) {
        (InstallStage::Downloading, InstallEvent::Failed(e)) => (failed(p, p.dest, false), pending, Act::Fail(e@, false)),
        (InstallStage::Downloading, _) => (at(p, InstallStage::MakingStaging), pending, Act::MakeStaging),
        (InstallStage::MakingStaging, InstallEvent::Failed(e)) => (failed(p, p.dest, false), pending, Act::Fail(e@, false)),
        (InstallStage::MakingStaging, _) => (at(p, InstallStage::Unpacking), pending, Act::Unpack),
        (InstallStage::Unpacking, InstallEvent::Failed(e)) => (
            failed(p, p.dest, false),
            pending,
            Act::Fail("unpacking "@ + repo + ". "@ + unchanged + ": "@ + e@, false),
        ),
        (InstallStage::Unpacking, _) => (at(p, InstallStage::WritingSource), pending, Act::WriteSource),
        (InstallStage::WritingSource, InstallEvent::Failed(e)) => (failed(p, p.dest, false), pending, Act::Fail(e@, false)),
        (InstallStage::WritingSource, _) => (at(p, InstallStage::Loading), pending, Act::Load),
        (InstallStage::Loading, InstallEvent::Loaded(m)) => match difference_of(reviewed, m) {
            Some(w) => (
                failed(p, p.dest, false),
                pending,
                Act::Fail(
                    repo + " was not installed: its downloaded module.toml differs from the one reviewed ("@ + w + "). "@
                        + unchanged,
                    false,
                ),
            ),
            None => (
                Progress { stage: InstallStage::CheckingDestination, matched: true, ..p },
                pending,
                Act::CheckDestination,
            ),
        },
        (InstallStage::Loading, InstallEvent::Failed(e)) => (
            failed(p, p.dest, false),
            pending,
            Act::Fail(repo + " is not a valid module. "@ + unchanged + ": "@ + e@, false),
        ),
        (InstallStage::CheckingDestination, InstallEvent::Checked(had)) => if had {
            (Progress { stage: InstallStage::MovingAside, had_old: true, ..p }, pending, Act::MoveAside)
        } else {
            (Progress { stage: InstallStage::MovingIn, had_old: false, ..p }, pending, Act::MoveIn)
        },
        (InstallStage::CheckingDestination, InstallEvent::Failed(e)) => (failed(p, p.dest, false), pending, Act::Fail(e@, false)),
        (InstallStage::MovingAside, InstallEvent::Failed(e)) => (
            failed(p, p.dest, false),
            pending,
            Act::Fail(
                "could not move the installed modules/"@ + folder + " aside to replace it \u{2014} is a file in it open? "@
                    + unchanged + ": "@ + e@,
                false,
            ),
        ),
        (InstallStage::MovingAside, _) => (Progress { stage: InstallStage::MovingIn, dest: Dest::Aside, ..p }, pending, Act::MoveIn),
        (InstallStage::MovingIn, InstallEvent::Failed(e)) => if p.had_old {
            (at(p, InstallStage::MovingBack), e@, Act::MoveBack)
        } else {
            (
                failed(p, p.dest, false),
                pending,
                Act::Fail("could not move "@ + repo + " into modules/"@ + folder + ". "@ + unchanged + ": "@ + e@, false),
            )
        },
        (InstallStage::MovingIn, _) => (Progress { stage: InstallStage::Installed, dest: Dest::New, ..p }, pending, Act::RemoveStaging),
        (InstallStage::MovingBack, InstallEvent::Failed(_)) => (
            failed(p, p.dest, true),
            pending,
            Act::Fail(
                "could not move "@ + repo + " into modules/"@ + folder
                    + ", nor the installed version back; the installed version is kept in the staging folder, under old: "@
                    + pending,
                true,
            ),
        ),
        (InstallStage::MovingBack, _) => (
            failed(p, Dest::AsBefore, false),
            pending,
            Act::Fail("could not move "@ + repo + " into modules/"@ + folder + ". "@ + unchanged + ": "@ + pending, false),
        ),
        (_, _) => (p, pending, Act::Fail(Seq::empty(), false)),
    }
}

/// What holds of an install's progress at every step.
pub open spec fn sound(p: Progress) -> bool {
    match p.stage {
        InstallStage::Downloading | InstallStage::MakingStaging | InstallStage::Unpacking | InstallStage::WritingSource
        | InstallStage::Loading => p.dest == Dest::AsBefore && !p.matched && !p.kept_old,
        InstallStage::CheckingDestination => p.dest == Dest::AsBefore && p.matched && !p.kept_old,
        InstallStage::MovingAside => p.dest == Dest::AsBefore && p.had_old && p.matched && !p.kept_old,
        InstallStage::MovingIn => p.dest == (if p.had_old { Dest::Aside } else { Dest::AsBefore }) && p.matched && !p.kept_old,
        InstallStage::MovingBack => p.dest == Dest::Aside && p.had_old && p.matched && !p.kept_old,
        InstallStage::Installed => p.dest == Dest::New && p.matched && !p.kept_old,
        InstallStage::Failed => p.dest == Dest::AsBefore || (p.dest == Dest::Aside && p.kept_old),
    }
}

impl InstallState {
    /// Begins putting the module of `repo`, reviewed as `reviewed`, into `modules/<folder>`:
    /// first the download.
    pub fn new(repo: String, folder: String, reviewed: ModuleManifest) -> (r: (InstallState, InstallAction))
        ensures
            r.0.progress == (Progress {
                stage: InstallStage::Downloading,
                had_old: false,
                dest: Dest::AsBefore,
                matched: false,
                kept_old: false,
            }),
            r.0.repo == repo,
            r.0.folder == folder,
            r.0.reviewed == reviewed,
            r.0.pending@ == Seq::<char>::empty(),
            r.1 is Download,
    {
        (
            InstallState {
                progress: Progress {
                    stage: InstallStage::Downloading,
                    had_old: false,
                    dest: Dest::AsBefore,
                    matched: false,
                    kept_old: false,
                },
                repo,
                folder,
                reviewed,
                pending: String::new(),
            },
            InstallAction::Download,
        )
    }
}

/// The step after the application answered the last one with `ev`: the next step, or the end
/// — the module in place, or an error with the folder as it was.
#[verifier::spinoff_prover]
pub fn install_step(st: InstallState, ev: InstallEvent) -> (r: (InstallState, InstallAction))
    requires
        st.progress.stage != InstallStage::Installed,
        st.progress.stage != InstallStage::Failed,
        answers(st.progress.stage, ev),
    ensures
        (r.0.progress, r.0.pending@, act_of(r.1)) == install_next(
            st.progress,
            st.pending@,
            st.repo@,
            st.folder@,
            st.reviewed,
            ev,
        ),
        r.0.repo == st.repo,
        r.0.folder == st.folder,
        r.0.reviewed == st.reviewed,
{
    let InstallState { progress: p, repo, folder, reviewed, pending } = st;
    let ghost unchanged = unchanged_text(folder@);
    let fail = |why: String, dest: Dest, kept: bool| -> (r: (Progress, InstallAction))
        ensures
            r.0 == failed(p, dest, kept),
            act_of(r.1) == Act::Fail(why@, kept),
    {
        (Progress { stage: InstallStage::Failed, dest, kept_old: kept, ..p }, InstallAction::Fail { why, keep_staging: kept })
    };
    let (np, npending, act) = match (p.stage, ev) {
        (InstallStage::Downloading, InstallEvent::Failed(e)) => {
            let (q, a) = fail(e, p.dest, false);
            (q, pending, a)
        },
        (InstallStage::Downloading, _) => (Progress { stage: InstallStage::MakingStaging, ..p }, pending, InstallAction::MakeStaging),
        (InstallStage::MakingStaging, InstallEvent::Failed(e)) => {
            let (q, a) = fail(e, p.dest, false);
            (q, pending, a)
        },
        (InstallStage::MakingStaging, _) => (Progress { stage: InstallStage::Unpacking, ..p }, pending, InstallAction::Unpack),
        (InstallStage::Unpacking, InstallEvent::Failed(e)) => {
            let mut why = joined("unpacking ", repo.as_str());
            why.append(". ");
            why.append(unchanged_line(folder.as_str()).as_str());
            why.append(": ");
            why.append(e.as_str());
            let (q, a) = fail(why, p.dest, false);
            (q, pending, a)
        },
        (InstallStage::Unpacking, _) => (Progress { stage: InstallStage::WritingSource, ..p }, pending, InstallAction::WriteSource),
        (InstallStage::WritingSource, InstallEvent::Failed(e)) => {
            let (q, a) = fail(e, p.dest, false);
            (q, pending, a)
        },
        (InstallStage::WritingSource, _) => (Progress { stage: InstallStage::Loading, ..p }, pending, InstallAction::Load),
        (InstallStage::Loading, InstallEvent::Loaded(m)) => match manifest_difference(&reviewed, &m) {
            Some(w) => {
                let mut why = joined(repo.as_str(), " was not installed: its downloaded module.toml differs from the one reviewed (");
                why.append(w);
                why.append("). ");
                why.append(unchanged_line(folder.as_str()).as_str());
                let (q, a) = fail(why, p.dest, false);
                (q, pending, a)
            },
            None => (
                Progress { stage: InstallStage::CheckingDestination, matched: true, ..p },
                pending,
                InstallAction::CheckDestination,
            ),
        },
        (InstallStage::Loading, InstallEvent::Failed(e)) => {
            let mut why = joined(repo.as_str(), " is not a valid module. ");
            why.append(unchanged_line(folder.as_str()).as_str());
            why.append(": ");
            why.append(e.as_str());
            let (q, a) = fail(why, p.dest, false);
            (q, pending, a)
        },
        (InstallStage::CheckingDestination, InstallEvent::Checked(had)) => if had {
            (Progress { stage: InstallStage::MovingAside, had_old: true, ..p }, pending, InstallAction::MoveAside)
        } else {
            (Progress { stage: InstallStage::MovingIn, had_old: false, ..p }, pending, InstallAction::MoveIn)
        },
        (InstallStage::CheckingDestination, InstallEvent::Failed(e)) => {
            let (q, a) = fail(e, p.dest, false);
            (q, pending, a)
        },
        (InstallStage::MovingAside, InstallEvent::Failed(e)) => {
            let mut why = joined("could not move the installed modules/", folder.as_str());
            why.append(" aside to replace it \u{2014} is a file in it open? ");
            why.append(unchanged_line(folder.as_str()).as_str());
            why.append(": ");
            why.append(e.as_str());
            let (q, a) = fail(why, p.dest, false);
            (q, pending, a)
        },
        (InstallStage::MovingAside, _) => (
            Progress { stage: InstallStage::MovingIn, dest: Dest::Aside, ..p },
            pending,
            InstallAction::MoveIn,
        ),
        (InstallStage::MovingIn, InstallEvent::Failed(e)) => if p.had_old {
            (Progress { stage: InstallStage::MovingBack, ..p }, e, InstallAction::MoveBack)
        } else {
            let mut why = joined("could not move ", repo.as_str());
            why.append(" into modules/");
            why.append(folder.as_str());
            why.append(". ");
            why.append(unchanged_line(folder.as_str()).as_str());
            why.append(": ");
            why.append(e.as_str());
            let (q, a) = fail(why, p.dest, false);
            (q, pending, a)
        },
        (InstallStage::MovingIn, _) => (
            Progress { stage: InstallStage::Installed, dest: Dest::New, ..p },
            pending,
            InstallAction::RemoveStaging,
        ),
        (InstallStage::MovingBack, InstallEvent::Failed(_)) => {
            let mut why = joined("could not move ", repo.as_str());
            why.append(" into modules/");
            why.append(folder.as_str());
            why.append(", nor the installed version back; the installed version is kept in the staging folder, under old: ");
            why.append(pending.as_str());
            let (q, a) = fail(why, p.dest, true);
            (q, pending, a)
        },
        (InstallStage::MovingBack, _) => {
            let mut why = joined("could not move ", repo.as_str());
            why.append(" into modules/");
            why.append(folder.as_str());
            why.append(". ");
            why.append(unchanged_line(folder.as_str()).as_str());
            why.append(": ");
            why.append(pending.as_str());
            let (q, a) = fail(why, Dest::AsBefore, false);
            (q, pending, a)
        },
        (_, _) => {
            let (q, a) = (p, InstallAction::Fail { why: String::new(), keep_staging: false });
            (q, pending, a)
        },
    };
    (InstallState { progress: np, repo, folder, reviewed, pending: npending }, act)
}

fn unchanged_line(folder: &str) -> (r: String)
    ensures
        r@ == unchanged_text(folder@),
{
    let mut r = joined("Nothing in modules/", folder);
    r.append(" was changed.");
    r
}

/// Every step keeps what holds of an install's progress.
pub proof fn every_install_step_is_sound(
    p: Progress,
    pending: Seq<char>,
    repo: Seq<char>,
    folder: Seq<char>,
    reviewed: ModuleManifest,
    ev: InstallEvent,
)
    requires
        sound(p),
        p.stage != InstallStage::Installed,
        p.stage != InstallStage::Failed,
        answers(p.stage, ev),
    ensures
        sound(install_next(p, pending, repo, folder, reviewed, ev).0),
{
}

/// An install that fails leaves the module's folder as it was — the installed version, or
/// nothing — except where neither the new version could be moved in nor the installed one
/// back, and then the installed version is kept in the staging folder and the error says so.
/// An install that succeeds put in place the manifest that was reviewed.
pub proof fn a_failed_install_leaves_the_installed_version(p: Progress)
    requires
        sound(p),
    ensures
        p.stage == InstallStage::Failed ==> p.dest == Dest::AsBefore || p.kept_old,
        p.stage == InstallStage::Installed ==> p.matched && p.dest == Dest::New,
{
}

} // verus!
