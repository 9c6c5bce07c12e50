//! What an install or an update would add, and the review that shows it before anything is
//! written: every module, why it is there, and what its code may reach.
//!
//! A review is read by a screen reader line by line, and it is the one place where a module's
//! own words sit beside the application's statement of what that module may do, so every word
//! a module's author chose goes through [`one_line`].
use vstd::prelude::*;

use crate::snapshot::pending::{kept, lemma_kept, lemma_split_len, taken};
use crate::portable::{buf_path, file_name_of, path_file_name};
use crate::registry::{
    after_last_slash, capability_text, describe_capability, one_line, one_line_of, repo_name, texts, InstalledModule,
};
use crate::text::{chars_of, decimal, decimal_text, is_white, joined, same_text, string_of, trim_end, white};
use vstd::multiset::Multiset;
use vstd::string::StringExecFns;

verus! {

/// What the plans and reviews read of a module's manifest.
pub struct ModuleManifest {
    pub id: String,
    pub name: String,
    pub version: String,
    /// Ids of the modules it needs.
    pub dependencies: Vec<String>,
    /// Ids of the modules it can use when they are present.
    pub optional_dependencies: Vec<String>,
    /// What it declares under `[capabilities] require`.
    pub capabilities: Vec<String>,
    /// What it claims about operating systems, verbatim.
    pub supported_os: Vec<String>,
    /// Whether its claims let it be loaded on this machine.
    pub runs_here: bool,
}

/// One module an install would write, pinned to the commit whose manifest was read.
pub struct PlannedModule {
    pub repo: String,
    pub branch: String,
    pub sha: String,
    pub manifest: ModuleManifest,
    /// Here only for an optional dependency of the module asked for: installed only when the
    /// user accepts the optional modules.
    pub optional: bool,
    /// The name of the module that brought this one in, or `None` for the module asked for.
    pub needed_by: Option<String>,
    /// Whether `needed_by` declares this one as an optional dependency.
    pub via_optional: bool,
}

/// Every module an install would add, and nothing else.
pub struct InstallPlan {
    /// The module asked for first, then every dependency that is not installed yet — each once,
    /// in the order they were found.
    pub modules: Vec<PlannedModule>,
    /// Optional dependencies of the module asked for that cannot be installed, each with the
    /// reason: only reported, never failing an install.
    pub unavailable_optional: Vec<(String, String)>,
}

/// What an update would change that the user has not agreed to yet.
pub struct UpdatePlan {
    pub id: String,
    pub name: String,
    pub from_version: String,
    /// The new version first, then every module it now needs that is not installed.
    pub install: InstallPlan,
    /// Capabilities the new version asks for that the installed one did not.
    pub added_capabilities: Vec<String>,
    /// Dependencies the new version declares that the installed one did not and that are
    /// already installed, as (id, optional): not downloaded, but their code now runs for it.
    pub added_installed_dependencies: Vec<(String, bool)>,
}

pub open spec fn any_optional(ps: Seq<PlannedModule>) -> bool {
    exists|i: int| 0 <= i < ps.len() && ps[i].optional
}

impl InstallPlan {
    /// Whether any module in the plan is there only for an optional dependency.
    pub fn has_optional(&self) -> (r: bool)
        ensures
            r == any_optional(self.modules@),
    {
        let mut i: usize = 0;
        while i < self.modules.len()
            invariant
                i <= self.modules@.len(),
                forall|k: int| 0 <= k < i ==> !self.modules@[k].optional,
            decreases self.modules@.len() - i,
        {
            if self.modules[i].optional {
                return true;
            }
            i += 1;
        }
        false
    }
}

impl UpdatePlan {
    /// Whether the update asks for anything new — a capability, or a module it did not use
    /// before — and must therefore be shown before it is applied.
    pub fn needs_review(&self) -> (r: bool)
        ensures
            r == (self.added_capabilities@.len() > 0 || self.install.modules@.len() > 1
                || self.added_installed_dependencies@.len() > 0),
    {
        self.added_capabilities.len() > 0 || self.install.modules.len() > 1 || self.added_installed_dependencies.len() > 0
    }
}

/// One line per capability: a bullet and what it lets a module do.
pub open spec fn capability_lines(caps: Seq<Seq<char>>) -> Seq<char>
    decreases caps.len(),
{
    if caps.len() == 0 {
        Seq::empty()
    } else {
        capability_lines(caps.drop_last()) + "\u{2022} "@ + capability_text(caps.last()) + "\n"@
    }
}

/// What a review says of a module's capabilities.
pub open spec fn capabilities_text(caps: Seq<Seq<char>>) -> Seq<char> {
    if caps.len() == 0 {
        "It asks for no capabilities.\n"@
    } else {
        "It may:\n"@ + capability_lines(caps)
    }
}

/// The bullets for `caps`, one line each.
fn capability_bullets(caps: &[String]) -> (r: String)
    ensures
        r@ == capability_lines(texts(caps@)),
{
    let mut s = String::new();
    let mut i: usize = 0;
    proof {
        assert(texts(caps@).take(0) =~= Seq::<Seq<char>>::empty());
    }
    while i < caps.len()
        invariant
            i <= caps@.len(),
            s@ == capability_lines(texts(caps@).take(i as int)),
        decreases caps@.len() - i,
    {
        s.append("\u{2022} ");
        s.append(describe_capability(caps[i].as_str()).as_str());
        s.append("\n");
        proof {
            let t = texts(caps@);
            assert(t.take(i + 1).drop_last() =~= t.take(i as int));
            assert(t.take(i + 1).last() == caps@[i as int]@);
        }
        i += 1;
    }
    proof {
        assert(texts(caps@).take(i as int) =~= texts(caps@));
    }
    s
}

/// What a module's capabilities let its code do: one line each, or that it asks for none.
fn describe_capabilities(caps: &[String]) -> (r: String)
    ensures
        r@ == capabilities_text(texts(caps@)),
{
    if caps.len() == 0 {
        return <String as StringExecFns>::from_str("It asks for no capabilities.\n");
    }
    let mut s = <String as StringExecFns>::from_str("It may:\n");
    s.append(capability_bullets(caps).as_str());
    s
}

/// Why a planned module is there.
pub open spec fn why_text(p: PlannedModule) -> Seq<char> {
    match p.needed_by {
        None => "the module you chose"@,
        Some(by) => if p.via_optional {
            "optional for "@ + one_line_of(by@, 100)
        } else {
            "needed by "@ + one_line_of(by@, 100)
        },
    }
}

/// The systems a manifest claims, each as one line, separated by commas.
pub open spec fn systems_text(os: Seq<Seq<char>>) -> Seq<char>
    decreases os.len(),
{
    if os.len() == 0 {
        Seq::empty()
    } else if os.len() == 1 {
        one_line_of(os[0], 30)
    } else {
        systems_text(os.drop_last()) + ", "@ + one_line_of(os.last(), 30)
    }
}

/// One module's paragraph in a review: who it is, why it is there, what it may do, and — when
/// its manifest rules this machine out — that it will not be loaded here.
pub open spec fn planned_text(n: nat, p: PlannedModule, os: Seq<char>) -> Seq<char> {
    let m = p.manifest;
    decimal(n) + ". "@ + one_line_of(m.name@, 100) + ", version "@ + m.version@ + " ("@ + m.id@ + "), from "@
        + p.repo@ + " \u{2014} "@ + why_text(p) + ".\n"@ + capabilities_text(texts(m.capabilities@)) + if m.runs_here {
        Seq::empty()
    } else {
        "\nNot for this system: it declares support for "@ + systems_text(texts(m.supported_os@))
            + ", and this machine is "@ + os + ". It can be installed, but it will not be loaded here.\n"@
    }
}

fn describe_systems(os: &[String]) -> (r: String)
    ensures
        r@ == systems_text(texts(os@)),
{
    let mut s = String::new();
    let mut i: usize = 0;
    proof {
        assert(texts(os@).take(0) =~= Seq::<Seq<char>>::empty());
    }
    while i < os.len()
        invariant
            i <= os@.len(),
            s@ == systems_text(texts(os@).take(i as int)),
        decreases os@.len() - i,
    {
        if i > 0 {
            s.append(", ");
        }
        s.append(one_line(os[i].as_str(), 30).as_str());
        proof {
            let t = texts(os@);
            assert(t.take(i + 1).drop_last() =~= t.take(i as int));
            assert(t.take(i + 1).last() == os@[i as int]@);
            if i == 0 {
                assert(t.take(1)[0] == os@[0]@);
                assert(s@ =~= systems_text(t.take(1)));
            }
        }
        i += 1;
    }
    proof {
        assert(texts(os@).take(i as int) =~= texts(os@));
    }
    s
}

/// One module's paragraph in a review, numbered `n`.
fn describe_planned(n: usize, p: &PlannedModule, os: &str) -> (r: String)
    ensures
        r@ == planned_text(n as nat, *p, os@),
{
    let m = &p.manifest;
    let why = match &p.needed_by {
        None => <String as StringExecFns>::from_str("the module you chose"),
        Some(by) => {
            let mut w = if p.via_optional {
                <String as StringExecFns>::from_str("optional for ")
            } else {
                <String as StringExecFns>::from_str("needed by ")
            };
            w.append(one_line(by.as_str(), 100).as_str());
            w
        },
    };
    let mut s = decimal_text(n as u64);
    s.append(". ");
    s.append(one_line(m.name.as_str(), 100).as_str());
    s.append(", version ");
    s.append(m.version.as_str());
    s.append(" (");
    s.append(m.id.as_str());
    s.append("), from ");
    s.append(p.repo.as_str());
    s.append(" \u{2014} ");
    s.append(why.as_str());
    s.append(".\n");
    s.append(describe_capabilities(m.capabilities.as_slice()).as_str());
    if !m.runs_here {
        s.append("\nNot for this system: it declares support for ");
        s.append(describe_systems(m.supported_os.as_slice()).as_str());
        s.append(", and this machine is ");
        s.append(os);
        s.append(". It can be installed, but it will not be loaded here.\n");
    }
    proof {
        assert(s@ =~= planned_text(n as nat, *p, os@));
    }
    s
}

/// `s` without the white space at its end.
fn trimmed_end(s: &str) -> (r: String)
    ensures
        r@ == trim_end(s@),
{
    let cs = chars_of(s);
    let mut b: usize = cs.len();
    proof {
        assert(cs@.take(b as int) =~= cs@);
    }
    while b > 0 && is_white(cs[b - 1])
        invariant
            cs@ == s@,
            b <= cs@.len(),
            trim_end(cs@.take(b as int)) == trim_end(s@),
        decreases b,
    {
        proof {
            assert(cs@.take(b as int).drop_last() =~= cs@.take(b - 1));
        }
        b -= 1;
    }
    let mut out: Vec<char> = Vec::new();
    let mut i: usize = 0;
    while i < b
        invariant
            cs@ == s@,
            i <= b <= cs@.len(),
            out@ == cs@.take(i as int),
        decreases b - i,
    {
        out.push(cs[i]);
        proof {
            assert(out@ =~= cs@.take(i + 1));
        }
        i += 1;
    }
    string_of(&out)
}

/// The paragraphs of `ps`, numbered from `first`, each followed by a blank line.
pub open spec fn listing(ps: Seq<PlannedModule>, first: nat, os: Seq<char>) -> Seq<char>
    decreases ps.len(),
{
    if ps.len() == 0 {
        Seq::empty()
    } else {
        listing(ps.drop_last(), first, os) + planned_text((first + ps.len() - 1) as nat, ps.last(), os) + "\n"@
    }
}

pub open spec fn is_optional() -> spec_fn(PlannedModule) -> bool {
    |p: PlannedModule| p.optional
}

/// The module asked for, by the name its manifest gives, as one line.
pub open spec fn chosen_name(ps: Seq<PlannedModule>) -> Seq<char> {
    one_line_of(
        if ps.len() > 0 {
            ps[0].manifest.name@
        } else {
            Seq::empty()
        },
        100,
    )
}

pub open spec fn install_intro(required: nat, chosen: Seq<char>) -> Seq<char> {
    if required == 1 {
        "Installing \u{201c}"@ + chosen + "\u{201d} adds this module."@
    } else {
        "Installing \u{201c}"@ + chosen + "\u{201d} adds "@ + decimal(required)
            + " modules: the one you chose and the modules it needs."@
    }
}

/// What every install review says after its first sentence.
pub const INSTALL_NOTICE: &'static str = " A module runs its own code; the capabilities below are what that code may reach. Nothing is installed until you choose to install.\n\n";

pub open spec fn optional_intro(chosen: Seq<char>) -> Seq<char> {
    "Optional modules \u{2014} extra features \u{201c}"@ + chosen
        + "\u{201d} can use, not required. They are installed only if you choose to install with the optional modules:\n\n"@
}

/// One line per optional module that cannot be installed, with the reason.
pub open spec fn unavailable_lines(u: Seq<(String, String)>) -> Seq<char>
    decreases u.len(),
{
    if u.len() == 0 {
        Seq::empty()
    } else {
        unavailable_lines(u.drop_last()) + "The optional module "@ + one_line_of(u.last().0@, 130) + " cannot be installed: "@
            + one_line_of(u.last().1@, 300) + ".\n"@
    }
}

/// The text of the install review.
pub open spec fn install_text(plan: InstallPlan, os: Seq<char>) -> Seq<char> {
    let ps = plan.modules@;
    let req = kept(ps, is_optional());
    let opt = taken(ps, is_optional());
    let c = chosen_name(ps);
    trim_end(
        install_intro(req.len(), c) + INSTALL_NOTICE@ + listing(req, 1, os) + (if opt.len() > 0 {
            optional_intro(c) + listing(opt, req.len() + 1, os)
        } else {
            Seq::empty()
        }) + unavailable_lines(plan.unavailable_optional@),
    )
}

/// Keeping items of a longer prefix keeps no fewer.
proof fn lemma_kept_prefix<T>(s: Seq<T>, g: spec_fn(T) -> bool, i: int, j: int)
    requires
        0 <= i <= j <= s.len(),
    ensures
        kept(s.take(i), g).len() <= kept(s.take(j), g).len(),
    decreases j - i,
{
    if i < j {
        lemma_kept_prefix(s, g, i, j - 1);
        assert(s.take(j).drop_last() =~= s.take(j - 1));
    }
}

/// The paragraphs of the modules of `ps` that are optional (`want`) or not, numbered from
/// `first`.
fn list_planned(ps: &Vec<PlannedModule>, want: bool, first: usize, os: &str) -> (r: String)
    requires
        1 <= first,
        first - 1 + (if want {
            taken(ps@, is_optional())
        } else {
            kept(ps@, is_optional())
        }).len() <= usize::MAX,
    ensures
        r@ == listing(
            if want {
                taken(ps@, is_optional())
            } else {
                kept(ps@, is_optional())
            },
            first as nat,
            os@,
        ),
{
    let ghost g = is_optional();
    let ghost pick = |q: Seq<PlannedModule>| if want { taken(q, g) } else { kept(q, g) };
    let mut s = String::new();
    let mut n: usize = 0;
    let mut i: usize = 0;
    proof {
        assert(ps@.take(0) =~= Seq::<PlannedModule>::empty());
    }
    while i < ps.len()
        invariant
            i <= ps@.len(),
            1 <= first,
            first - 1 + pick(ps@).len() <= usize::MAX,
            g == is_optional(),
            pick == (|q: Seq<PlannedModule>| if want { taken(q, g) } else { kept(q, g) }),
            n == pick(ps@.take(i as int)).len(),
            n <= i,
            s@ == listing(pick(ps@.take(i as int)), first as nat, os@),
        decreases ps@.len() - i,
    {
        let ghost before = pick(ps@.take(i as int));
        proof {
            assert(ps@.take(i + 1).drop_last() =~= ps@.take(i as int));
            assert(ps@.take(i + 1).last() == ps@[i as int]);
            assert(ps@.take(ps@.len() as int) =~= ps@);
            if want {
                lemma_kept_prefix(ps@, |x: PlannedModule| !g(x), i + 1, ps@.len() as int);
            } else {
                lemma_kept_prefix(ps@, g, i + 1, ps@.len() as int);
            }
        }
        if ps[i].optional == want {
            proof {
                assert(pick(ps@.take(i + 1)) == before.push(ps@[i as int]));
                assert(before.push(ps@[i as int]).drop_last() =~= before);
            }
            n += 1;
            s.append(describe_planned(first - 1 + n, &ps[i], os).as_str());
            s.append("\n");
        } else {
            proof {
                assert(pick(ps@.take(i + 1)) == before);
            }
        }
        i += 1;
    }
    proof {
        assert(ps@.take(i as int) =~= ps@);
    }
    s
}

/// The text of the install review: every module the install adds, each with what it may do,
/// the optional ones apart, and the optional ones that cannot be installed. `os` is the name
/// of this machine's system.
#[verifier::rlimit(40)]
pub fn install_review_text(plan: &InstallPlan, os: &str) -> (r: String)
    ensures
        r@ == install_text(*plan, os@),
{
    let ps = &plan.modules;
    let ghost g = is_optional();
    let mut nreq: usize = 0;
    let mut i: usize = 0;
    proof {
        assert(ps@.take(0) =~= Seq::<PlannedModule>::empty());
    }
    while i < ps.len()
        invariant
            i <= ps@.len(),
            g == is_optional(),
            nreq == kept(ps@.take(i as int), g).len(),
            nreq <= i,
        decreases ps@.len() - i,
    {
        proof {
            assert(ps@.take(i + 1).drop_last() =~= ps@.take(i as int));
        }
        if !ps[i].optional {
            nreq += 1;
        }
        i += 1;
    }
    proof {
        assert(ps@.take(i as int) =~= ps@);
        crate::snapshot::pending::lemma_split_len(ps@, g);
        crate::snapshot::pending::lemma_kept(ps@, g);
    }
    let chosen = if ps.len() > 0 {
        one_line(ps[0].manifest.name.as_str(), 100)
    } else {
        let nothing = String::new();
        one_line(nothing.as_str(), 100)
    };
    let mut s = <String as StringExecFns>::from_str("Installing \u{201c}");
    s.append(chosen.as_str());
    if nreq == 1 {
        s.append("\u{201d} adds this module.");
    } else {
        s.append("\u{201d} adds ");
        s.append(decimal_text(nreq as u64).as_str());
        s.append(" modules: the one you chose and the modules it needs.");
    }
    s.append(INSTALL_NOTICE);
    s.append(list_planned(ps, false, 1, os).as_str());
    if nreq < ps.len() {
        s.append("Optional modules \u{2014} extra features \u{201c}");
        s.append(chosen.as_str());
        s.append("\u{201d} can use, not required. They are installed only if you choose to install with the optional modules:\n\n");
        s.append(list_planned(ps, true, nreq + 1, os).as_str());
    }
    let u = &plan.unavailable_optional;
    let mut j: usize = 0;
    let ghost before = s@;
    proof {
        assert(u@.take(0) =~= Seq::<(String, String)>::empty());
    }
    while j < u.len()
        invariant
            j <= u@.len(),
            s@ == before + unavailable_lines(u@.take(j as int)),
        decreases u@.len() - j,
    {
        s.append("The optional module ");
        s.append(one_line(u[j].0.as_str(), 130).as_str());
        s.append(" cannot be installed: ");
        s.append(one_line(u[j].1.as_str(), 300).as_str());
        s.append(".\n");
        proof {
            assert(u@.take(j + 1).drop_last() =~= u@.take(j as int));
            assert(u@.take(j + 1).last() == u@[j as int]);
        }
        j += 1;
    }
    proof {
        assert(u@.take(j as int) =~= u@);
        assert(s@ =~= install_intro(nreq as nat, chosen_name(ps@)) + INSTALL_NOTICE@ + listing(kept(ps@, g), 1, os@) + (if taken(ps@, g).len() > 0 {
            optional_intro(chosen_name(ps@)) + listing(taken(ps@, g), (kept(ps@, g).len() + 1) as nat, os@)
        } else {
            Seq::<char>::empty()
        }) + unavailable_lines(u@));
    }
    trimmed_end(s.as_str())
}

/// The first installed module with id `id`.
pub open spec fn installed_with(installed: Seq<InstalledModule>, id: Seq<char>) -> Option<int>
    decreases installed.len(),
{
    if installed.len() == 0 {
        None
    } else {
        match installed_with(installed.drop_last(), id) {
            Some(i) => Some(i),
            None => if installed.last().id@ == id {
                Some(installed.len() - 1)
            } else {
                None
            },
        }
    }
}

/// What an update review says of an installed module it starts using: its name (or its id,
/// when it is not installed after all), whether only when enabled, and what it may do.
pub open spec fn using_text(d: (String, bool), installed: Seq<InstalledModule>) -> Seq<char> {
    let m = installed_with(installed, d.0@);
    one_line_of(
        match m {
            Some(i) => installed[i].name@,
            None => d.0@,
        },
        100,
    ) + " ("@ + d.0@ + ")"@ + (if d.1 {
        ", when it is enabled"@
    } else {
        Seq::empty()
    }) + ".\n"@ + capabilities_text(
        match m {
            Some(i) => texts(installed[i].capabilities@),
            None => Seq::empty(),
        },
    ) + "\n"@
}

pub open spec fn using_lines(deps: Seq<(String, bool)>, installed: Seq<InstalledModule>) -> Seq<char>
    decreases deps.len(),
{
    if deps.len() == 0 {
        Seq::empty()
    } else {
        using_lines(deps.drop_last(), installed) + using_text(deps.last(), installed)
    }
}

pub open spec fn update_head(plan: UpdatePlan) -> Seq<char> {
    "Updating \u{201c}"@ + one_line_of(plan.name@, 100) + "\u{201d} from version "@ + plan.from_version@ + " to version "@
        + plan.install.modules@[0].manifest.version@
        + " changes what it may do. Nothing is changed until you choose to update.\n\n"@
}

pub open spec fn added_capabilities_part(plan: UpdatePlan) -> Seq<char> {
    if plan.added_capabilities@.len() > 0 {
        "The new version also asks to:\n"@ + capability_lines(texts(plan.added_capabilities@)) + "\n"@
    } else {
        Seq::empty()
    }
}

pub open spec fn using_part(plan: UpdatePlan, installed: Seq<InstalledModule>) -> Seq<char> {
    if plan.added_installed_dependencies@.len() > 0 {
        "It starts using these modules you already have; their code will run for it:\n\n"@ + using_lines(
            plan.added_installed_dependencies@,
            installed,
        )
    } else {
        Seq::empty()
    }
}

pub open spec fn new_modules_part(plan: UpdatePlan, os: Seq<char>) -> Seq<char> {
    let new = plan.install.modules@.skip(1);
    if new.len() > 0 {
        "It needs "@ + decimal(new.len()) + " module"@ + (if new.len() == 1 {
            Seq::empty()
        } else {
            "s"@
        }) + " you do not have yet, which will be installed with it:\n\n"@ + listing(new, 1, os)
    } else {
        Seq::empty()
    }
}

/// The update review before the white space at its end is dropped.
pub open spec fn update_text_untrimmed(plan: UpdatePlan, installed: Seq<InstalledModule>, os: Seq<char>) -> Seq<char> {
    update_head(plan) + added_capabilities_part(plan) + using_part(plan, installed) + new_modules_part(plan, os)
}

/// The text of the update review: empty when the plan holds no new version.
pub open spec fn update_text(plan: UpdatePlan, installed: Seq<InstalledModule>, os: Seq<char>) -> Seq<char> {
    if plan.install.modules@.len() == 0 {
        Seq::empty()
    } else {
        trim_end(update_text_untrimmed(plan, installed, os))
    }
}

/// Where the module with id `id` is in `installed`.
fn find_installed(installed: &[InstalledModule], id: &str) -> (r: Option<usize>)
    ensures
        match r {
            Some(i) => installed_with(installed@, id@) == Some(i as int) && i < installed@.len(),
            None => installed_with(installed@, id@) is None,
        },
{
    let mut i: usize = 0;
    proof {
        assert(installed@.take(0) =~= Seq::<InstalledModule>::empty());
    }
    while i < installed.len()
        invariant
            i <= installed@.len(),
            installed_with(installed@.take(i as int), id@) is None,
        decreases installed@.len() - i,
    {
        proof {
            assert(installed@.take(i + 1).drop_last() =~= installed@.take(i as int));
        }
        if same_text(installed[i].id.as_str(), id) {
            proof {
                lemma_installed_with_prefix(installed@, id@, i + 1);
            }
            return Some(i);
        }
        i += 1;
    }
    proof {
        assert(installed@.take(i as int) =~= installed@);
    }
    None
}

/// Finding in a prefix that holds the id is finding in the whole.
proof fn lemma_installed_with_prefix(s: Seq<InstalledModule>, id: Seq<char>, n: int)
    requires
        0 < n <= s.len(),
        installed_with(s.take(n), id) is Some,
    ensures
        installed_with(s, id) == installed_with(s.take(n), id),
    decreases s.len() - n,
{
    if n < s.len() {
        assert(s.take(n + 1).drop_last() =~= s.take(n));
        lemma_installed_with_prefix(s, id, n + 1);
    } else {
        assert(s.take(n) =~= s);
    }
}

/// The modules of `ps` after the first, numbered from 1.
fn list_after_first(ps: &Vec<PlannedModule>, os: &str) -> (r: String)
    requires
        ps@.len() >= 1,
    ensures
        r@ == listing(ps@.skip(1), 1, os@),
{
    let mut s = String::new();
    let mut i: usize = 1;
    proof {
        assert(ps@.subrange(1, 1) =~= Seq::<PlannedModule>::empty());
    }
    while i < ps.len()
        invariant
            1 <= i <= ps@.len(),
            s@ == listing(ps@.subrange(1, i as int), 1, os@),
        decreases ps@.len() - i,
    {
        s.append(describe_planned(i, &ps[i], os).as_str());
        s.append("\n");
        proof {
            assert(ps@.subrange(1, i + 1).drop_last() =~= ps@.subrange(1, i as int));
            assert(ps@.subrange(1, i + 1).last() == ps@[i as int]);
        }
        i += 1;
    }
    proof {
        assert(ps@.subrange(1, i as int) =~= ps@.skip(1));
    }
    s
}

/// An installed module an update starts using, as the review tells it.
fn describe_using(d: &(String, bool), installed: &[InstalledModule]) -> (r: String)
    ensures
        r@ == using_text(*d, installed@),
{
    let id = &d.0;
    let found = find_installed(installed, id.as_str());
    let mut s = match found {
        Some(k) => one_line(installed[k].name.as_str(), 100),
        None => one_line(id.as_str(), 100),
    };
    s.append(" (");
    s.append(id.as_str());
    s.append(")");
    if d.1 {
        s.append(", when it is enabled");
    }
    s.append(".\n");
    match found {
        Some(k) => s.append(describe_capabilities(installed[k].capabilities.as_slice()).as_str()),
        None => {
            let none: Vec<String> = Vec::new();
            s.append(describe_capabilities(none.as_slice()).as_str());
            proof {
                assert(texts(none@) =~= Seq::<Seq<char>>::empty());
            }
        },
    }
    s.append("\n");
    s
}

/// Every installed module an update starts using, as the review tells them.
fn describe_usings(deps: &Vec<(String, bool)>, installed: &[InstalledModule]) -> (r: String)
    ensures
        r@ == using_lines(deps@, installed@),
{
    let mut s = String::new();
    let mut j: usize = 0;
    proof {
        assert(deps@.take(0) =~= Seq::<(String, bool)>::empty());
    }
    while j < deps.len()
        invariant
            j <= deps@.len(),
            s@ == using_lines(deps@.take(j as int), installed@),
        decreases deps@.len() - j,
    {
        s.append(describe_using(&deps[j], installed).as_str());
        proof {
            assert(deps@.take(j + 1).drop_last() =~= deps@.take(j as int));
            assert(deps@.take(j + 1).last() == deps@[j as int]);
        }
        j += 1;
    }
    proof {
        assert(deps@.take(j as int) =~= deps@);
    }
    s
}

/// The text of the update review: the new version's capabilities it did not ask for before,
/// the installed modules it starts using, and the modules it needs that are not installed.
/// `installed` is everything installed.
pub fn update_review_text(plan: &UpdatePlan, installed: &[InstalledModule], os: &str) -> (r: String)
    ensures
        r@ == update_text(*plan, installed@, os@),
{
    let ms = &plan.install.modules;
    if ms.len() == 0 {
        return String::new();
    }
    let mut s = update_heading(plan);
    s.append(update_capabilities(plan).as_str());
    s.append(update_usings(plan, installed).as_str());
    s.append(update_new_modules(plan, os).as_str());
    trimmed_end(s.as_str())
}

fn update_heading(plan: &UpdatePlan) -> (r: String)
    requires
        plan.install.modules@.len() > 0,
    ensures
        r@ == update_head(*plan),
{
    let mut s = <String as StringExecFns>::from_str("Updating \u{201c}");
    s.append(one_line(plan.name.as_str(), 100).as_str());
    s.append("\u{201d} from version ");
    s.append(plan.from_version.as_str());
    s.append(" to version ");
    s.append(plan.install.modules[0].manifest.version.as_str());
    s.append(" changes what it may do. Nothing is changed until you choose to update.\n\n");
    s
}

fn update_capabilities(plan: &UpdatePlan) -> (r: String)
    ensures
        r@ == added_capabilities_part(*plan),
{
    if plan.added_capabilities.len() > 0 {
        let mut s = <String as StringExecFns>::from_str("The new version also asks to:\n");
        s.append(capability_bullets(plan.added_capabilities.as_slice()).as_str());
        s.append("\n");
        s
    } else {
        String::new()
    }
}

fn update_usings(plan: &UpdatePlan, installed: &[InstalledModule]) -> (r: String)
    ensures
        r@ == using_part(*plan, installed@),
{
    if plan.added_installed_dependencies.len() > 0 {
        let mut s = <String as StringExecFns>::from_str(
            "It starts using these modules you already have; their code will run for it:\n\n",
        );
        s.append(describe_usings(&plan.added_installed_dependencies, installed).as_str());
        s
    } else {
        String::new()
    }
}

fn update_new_modules(plan: &UpdatePlan, os: &str) -> (r: String)
    requires
        plan.install.modules@.len() > 0,
    ensures
        r@ == new_modules_part(*plan, os@),
{
    let ms = &plan.install.modules;
    let n_new = ms.len() - 1;
    if n_new > 0 {
        let mut s = <String as StringExecFns>::from_str("It needs ");
        s.append(decimal_text(n_new as u64).as_str());
        s.append(" module");
        if n_new != 1 {
            s.append("s");
        }
        s.append(" you do not have yet, which will be installed with it:\n\n");
        s.append(list_after_first(ms, os).as_str());
        s
    } else {
        String::new()
    }
}

/// A dependency is no obstacle to writing a module: it is not in the plan, or it was written.
pub open spec fn dep_ok(plan_ids: Seq<Seq<char>>, written: Seq<Seq<char>>, d: Seq<char>) -> bool {
    !plan_ids.contains(d) || written.contains(d)
}

/// Every dependency of `p`, required or optional, is no obstacle to writing it.
pub open spec fn writable(p: PlannedModule, plan_ids: Seq<Seq<char>>, written: Seq<Seq<char>>) -> bool {
    &&& forall|k: int|
        0 <= k < p.manifest.dependencies@.len() ==> dep_ok(plan_ids, written, #[trigger] p.manifest.dependencies@[k]@)
    &&& forall|k: int|
        0 <= k < p.manifest.optional_dependencies@.len() ==> dep_ok(
            plan_ids,
            written,
            #[trigger] p.manifest.optional_dependencies@[k]@,
        )
}

/// The ids of the modules of `ps` at `ix`.
pub open spec fn ids_at(ps: Seq<PlannedModule>, ix: Seq<int>) -> Seq<Seq<char>> {
    ix.map_values(|i: int| ps[i].manifest.id@)
}

/// The modules that cannot be written yet.
pub open spec fn blocked(ps: Seq<PlannedModule>, plan_ids: Seq<Seq<char>>, written: Seq<Seq<char>>) -> spec_fn(int) -> bool {
    |i: int| !writable(ps[i], plan_ids, written)
}

/// Rounds of writing: every module of `rem` whose dependencies are written goes in this round,
/// in order, and the rest wait for the next; when none can go, the rest follow in order.
pub open spec fn write_rounds(ps: Seq<PlannedModule>, plan_ids: Seq<Seq<char>>, written: Seq<Seq<char>>, rem: Seq<int>) -> Seq<int>
    decreases rem.len(),
{
    if rem.len() == 0 {
        rem
    } else {
        let g = blocked(ps, plan_ids, written);
        let ready = kept(rem, g);
        if ready.len() == 0 {
            rem
        } else {
            proof {
                lemma_split_len(rem, g);
            }
            ready + write_rounds(ps, plan_ids, written + ids_at(ps, ready), taken(rem, g))
        }
    }
}

/// The modules of the plan an install writes: all of them, or those not there only for an
/// optional dependency.
pub open spec fn wanted_of(ps: Seq<PlannedModule>, with_optional: bool) -> Seq<int> {
    kept(Seq::new(ps.len(), |i: int| i), |i: int| !with_optional && ps[i].optional)
}

/// The order an install writes the plan's modules in.
pub open spec fn install_order_of(ps: Seq<PlannedModule>, with_optional: bool) -> Seq<int> {
    write_rounds(ps, ids_at(ps, wanted_of(ps, with_optional)), Seq::empty(), wanted_of(ps, with_optional))
}

pub open spec fn as_ints(v: Seq<usize>) -> Seq<int> {
    v.map_values(|x: usize| x as int)
}

/// Whether `v` holds `s`.
pub(crate) fn has_text(v: &Vec<String>, s: &str) -> (r: bool)
    ensures
        r == texts(v@).contains(s@),
{
    let mut i: usize = 0;
    while i < v.len()
        invariant
            i <= v@.len(),
            forall|k: int| 0 <= k < i ==> v@[k]@ != s@,
        decreases v@.len() - i,
    {
        if same_text(v[i].as_str(), s) {
            proof {
                assert(texts(v@)[i as int] == s@);
            }
            return true;
        }
        i += 1;
    }
    proof {
        if texts(v@).contains(s@) {
            let k = choose|k: int| 0 <= k < texts(v@).len() && texts(v@)[k] == s@;
            assert(v@[k]@ == s@);
        }
    }
    false
}

/// Whether every dependency of `p` is no obstacle to writing it.
fn can_write_now(p: &PlannedModule, plan_ids: &Vec<String>, written: &Vec<String>) -> (r: bool)
    ensures
        r == writable(*p, texts(plan_ids@), texts(written@)),
{
    let deps = &p.manifest.dependencies;
    let mut i: usize = 0;
    while i < deps.len()
        invariant
            i <= deps@.len(),
            deps@ == p.manifest.dependencies@,
            forall|k: int| 0 <= k < i ==> dep_ok(texts(plan_ids@), texts(written@), #[trigger] deps@[k]@),
        decreases deps@.len() - i,
    {
        if has_text(plan_ids, deps[i].as_str()) && !has_text(written, deps[i].as_str()) {
            proof {
                assert(!dep_ok(texts(plan_ids@), texts(written@), p.manifest.dependencies@[i as int]@));
                assert(!writable(*p, texts(plan_ids@), texts(written@)));
            }
            return false;
        }
        i += 1;
    }
    let opt = &p.manifest.optional_dependencies;
    let mut j: usize = 0;
    while j < opt.len()
        invariant
            j <= opt@.len(),
            deps@ == p.manifest.dependencies@,
            opt@ == p.manifest.optional_dependencies@,
            forall|k: int| 0 <= k < deps@.len() ==> dep_ok(texts(plan_ids@), texts(written@), #[trigger] deps@[k]@),
            forall|k: int| 0 <= k < j ==> dep_ok(texts(plan_ids@), texts(written@), #[trigger] opt@[k]@),
        decreases opt@.len() - j,
    {
        if has_text(plan_ids, opt[j].as_str()) && !has_text(written, opt[j].as_str()) {
            proof {
                assert(!dep_ok(texts(plan_ids@), texts(written@), p.manifest.optional_dependencies@[j as int]@));
                assert(!writable(*p, texts(plan_ids@), texts(written@)));
            }
            return false;
        }
        j += 1;
    }
    true
}

/// The modules of `plan` to write, by their place in it, each after every module of the plan it
/// depends on, so that a download failing part-way never leaves a module installed without a
/// dependency it needs; the optional ones only `with_optional`. A cycle cannot be ordered, and
/// its members follow in the order they were found rather than being dropped.
#[verifier::spinoff_prover]
pub fn install_order(plan: &InstallPlan, with_optional: bool) -> (r: Vec<usize>)
    ensures
        as_ints(r@) == install_order_of(plan.modules@, with_optional),
{
    let ps = &plan.modules;
    let ghost all = Seq::new(ps@.len(), |i: int| i);
    let ghost skip = |i: int| !with_optional && ps@[i].optional;
    let mut wanted: Vec<usize> = Vec::new();
    let mut plan_ids: Vec<String> = Vec::new();
    let mut i: usize = 0;
    proof {
        assert(all.take(0) =~= Seq::<int>::empty());
        assert(as_ints(wanted@) =~= Seq::<int>::empty());
        assert(texts(plan_ids@) =~= Seq::<Seq<char>>::empty());
    }
    while i < ps.len()
        invariant
            i <= ps@.len(),
            all == Seq::new(ps@.len(), |i: int| i),
            skip == (|i: int| !with_optional && ps@[i].optional),
            as_ints(wanted@) == kept(all.take(i as int), skip),
            texts(plan_ids@) == ids_at(ps@, as_ints(wanted@)),
            forall|k: int| 0 <= k < wanted@.len() ==> wanted@[k] < ps@.len(),
        decreases ps@.len() - i,
    {
        let ghost w0 = as_ints(wanted@);
        let ghost p0 = plan_ids@;
        proof {
            assert(all.take(i + 1).drop_last() =~= all.take(i as int));
            assert(all.take(i + 1).last() == i as int);
        }
        if with_optional || !ps[i].optional {
            wanted.push(i);
            plan_ids.push(ps[i].manifest.id.clone());
            proof {
                assert(as_ints(wanted@) =~= w0.push(i as int));
                assert(ids_at(ps@, w0.push(i as int)) =~= ids_at(ps@, w0).push(ps@[i as int].manifest.id@));
                assert(texts(plan_ids@) =~= texts(p0).push(ps@[i as int].manifest.id@));
            }
        }
        i += 1;
    }
    proof {
        assert(all.take(i as int) =~= all);
    }
    let ghost pids = texts(plan_ids@);
    let ghost total = write_rounds(ps@, pids, Seq::empty(), as_ints(wanted@));
    let mut out: Vec<usize> = Vec::new();
    let mut written: Vec<String> = Vec::new();
    let mut rem = wanted;
    proof {
        assert(as_ints(out@) =~= Seq::<int>::empty());
        assert(texts(written@) =~= Seq::<Seq<char>>::empty());
        assert(as_ints(out@) + total =~= total);
    }
    while rem.len() > 0
        invariant
            pids == texts(plan_ids@),
            as_ints(out@) + write_rounds(ps@, pids, texts(written@), as_ints(rem@)) == total,
            forall|k: int| 0 <= k < rem@.len() ==> rem@[k] < ps@.len(),
        decreases rem@.len(),
    {
        let ghost g = blocked(ps@, pids, texts(written@));
        let ghost rv = as_ints(rem@);
        let mut ready: Vec<usize> = Vec::new();
        let mut waiting: Vec<usize> = Vec::new();
        let mut k: usize = 0;
        proof {
            assert(rv.take(0) =~= Seq::<int>::empty());
            assert(as_ints(ready@) =~= Seq::<int>::empty());
            assert(as_ints(waiting@) =~= Seq::<int>::empty());
        }
        while k < rem.len()
            invariant
                k <= rem@.len(),
                rv == as_ints(rem@),
                g == blocked(ps@, pids, texts(written@)),
                pids == texts(plan_ids@),
                as_ints(ready@) == kept(rv.take(k as int), g),
                as_ints(waiting@) == taken(rv.take(k as int), g),
                forall|q: int| 0 <= q < rem@.len() ==> rem@[q] < ps@.len(),
                forall|q: int| 0 <= q < waiting@.len() ==> waiting@[q] < ps@.len(),
                forall|q: int| 0 <= q < ready@.len() ==> ready@[q] < ps@.len(),
            decreases rem@.len() - k,
        {
            let m = rem[k];
            let ghost r0 = as_ints(ready@);
            let ghost w0 = as_ints(waiting@);
            proof {
                assert(rv.take(k + 1).drop_last() =~= rv.take(k as int));
                assert(rv.take(k + 1).last() == m as int);
            }
            if can_write_now(&ps[m], &plan_ids, &written) {
                ready.push(m);
                proof {
                    assert(!g(m as int));
                    assert(as_ints(ready@) =~= r0.push(m as int));
                }
            } else {
                waiting.push(m);
                proof {
                    assert(g(m as int));
                    assert(as_ints(waiting@) =~= w0.push(m as int));
                }
            }
            k += 1;
        }
        proof {
            assert(rv.take(k as int) =~= rv);
            lemma_split_len(rv, g);
        }
        if ready.len() == 0 {
            let mut q: usize = 0;
            let ghost o0 = as_ints(out@);
            while q < rem.len()
                invariant
                    q <= rem@.len(),
                    as_ints(out@) == o0 + as_ints(rem@).take(q as int),
                decreases rem@.len() - q,
            {
                let ghost ob = out@;
                out.push(rem[q]);
                proof {
                    assert(as_ints(out@) =~= as_ints(ob).push(rem@[q as int] as int));
                    assert(as_ints(rem@).take(q + 1) =~= as_ints(rem@).take(q as int).push(rem@[q as int] as int));
                    assert(as_ints(out@) =~= o0 + as_ints(rem@).take(q + 1));
                }
                q += 1;
            }
            proof {
                assert(as_ints(rem@).take(q as int) =~= rv);
                assert(write_rounds(ps@, pids, texts(written@), rv) == rv);
            }
            rem = Vec::new();
            proof {
                assert(as_ints(rem@) =~= Seq::<int>::empty());
                assert(as_ints(out@) + write_rounds(ps@, pids, texts(written@), as_ints(rem@)) =~= total);
            }
        } else {
            let ghost o0 = as_ints(out@);
            let ghost wr0 = texts(written@);
            let ghost rd = as_ints(ready@);
            let mut q: usize = 0;
            while q < ready.len()
                invariant
                    q <= ready@.len(),
                    rd == as_ints(ready@),
                    as_ints(out@) == o0 + rd.take(q as int),
                    texts(written@) == wr0 + ids_at(ps@, rd.take(q as int)),
                    forall|z: int| 0 <= z < ready@.len() ==> ready@[z] < ps@.len(),
                decreases ready@.len() - q,
            {
                let m = ready[q];
                let ghost ob = out@;
                let ghost wb = written@;
                out.push(m);
                written.push(ps[m].manifest.id.clone());
                proof {
                    assert(as_ints(out@) =~= as_ints(ob).push(m as int));
                    assert(texts(written@) =~= texts(wb).push(ps@[m as int].manifest.id@));
                    assert(rd.take(q + 1) =~= rd.take(q as int).push(m as int));
                    assert(as_ints(out@) =~= o0 + rd.take(q + 1));
                    assert(ids_at(ps@, rd.take(q + 1)) =~= ids_at(ps@, rd.take(q as int)).push(ps@[m as int].manifest.id@));
                    assert(texts(written@) =~= wr0 + ids_at(ps@, rd.take(q + 1)));
                }
                q += 1;
            }
            proof {
                assert(rd.take(q as int) =~= rd);
                assert(o0 + write_rounds(ps@, pids, wr0, rv) =~= total);
                assert(write_rounds(ps@, pids, wr0, rv) == rd + write_rounds(ps@, pids, wr0 + ids_at(ps@, rd), as_ints(waiting@)));
                assert(as_ints(out@) + write_rounds(ps@, pids, texts(written@), as_ints(waiting@)) =~= total);
            }
            rem = waiting;
        }
    }
    proof {
        assert(as_ints(rem@) =~= Seq::<int>::empty());
        assert(as_ints(out@) =~= total);
    }
    out
}

/// What is kept and what is taken are, together, what there was.
pub proof fn lemma_split_multiset<T>(s: Seq<T>, g: spec_fn(T) -> bool)
    ensures
        kept(s, g).to_multiset().add(taken(s, g).to_multiset()) =~= s.to_multiset(),
    decreases s.len(),
{
    broadcast use vstd::seq_lib::to_multiset_build;
    broadcast use vstd::multiset::group_multiset_axioms;

    if s.len() == 0 {
        broadcast use vstd::seq_lib::group_to_multiset_ensures;

        assert(kept(s, g) == s);
        assert(taken(s, g) == s);
        assert forall|a: T| s.to_multiset().count(a) == 0 by {
            assert(!s.contains(a));
        }
        assert(s.to_multiset() =~= Multiset::<T>::empty());
    } else {
        let t = s.drop_last();
        lemma_split_multiset(t, g);
        assert(s =~= t.push(s.last()));
    }
}

/// Writing more keeps a module writable.
pub proof fn lemma_writable_more(p: PlannedModule, pids: Seq<Seq<char>>, w1: Seq<Seq<char>>, w2: Seq<Seq<char>>)
    requires
        writable(p, pids, w1),
        forall|x: Seq<char>| w1.contains(x) ==> w2.contains(x),
    ensures
        writable(p, pids, w2),
{
    assert forall|k: int| 0 <= k < p.manifest.dependencies@.len() implies dep_ok(pids, w2, #[trigger] p.manifest.dependencies@[k]@) by {
        assert(dep_ok(pids, w1, p.manifest.dependencies@[k]@));
    }
    assert forall|k: int| 0 <= k < p.manifest.optional_dependencies@.len() implies dep_ok(pids, w2, #[trigger] p.manifest.optional_dependencies@[k]@) by {
        assert(dep_ok(pids, w1, p.manifest.optional_dependencies@[k]@));
    }
}

/// The order writes each module once, and puts every module it can after what it needs: each
/// up to some point can be written given those before it, and none after that point can be
/// written even given everything before it (the members of a cycle, in the order found).
pub open spec fn writes_in_order(ps: Seq<PlannedModule>, pids: Seq<Seq<char>>, written: Seq<Seq<char>>, o: Seq<int>, k: int) -> bool {
    &&& 0 <= k <= o.len()
    &&& forall|j: int| 0 <= j < k ==> writable(ps[#[trigger] o[j]], pids, written + ids_at(ps, o.take(j)))
    &&& forall|j: int| k <= j < o.len() ==> !writable(ps[#[trigger] o[j]], pids, written + ids_at(ps, o.take(k)))
}

pub proof fn lemma_write_rounds(ps: Seq<PlannedModule>, pids: Seq<Seq<char>>, written: Seq<Seq<char>>, rem: Seq<int>)
    ensures
        write_rounds(ps, pids, written, rem).to_multiset() =~= rem.to_multiset(),
        exists|k: int| writes_in_order(ps, pids, written, write_rounds(ps, pids, written, rem), k),
    decreases rem.len(),
{
    broadcast use vstd::seq_lib::lemma_multiset_commutative;

    let o = write_rounds(ps, pids, written, rem);
    let g = blocked(ps, pids, written);
    if rem.len() == 0 {
        assert(writes_in_order(ps, pids, written, o, 0));
        return;
    }
    let r = kept(rem, g);
    let t = taken(rem, g);
    lemma_kept(rem, g);
    if r.len() == 0 {
        assert(o == rem);
        assert(rem.take(0) =~= Seq::<int>::empty());
        assert(ids_at(ps, rem.take(0)) =~= Seq::<Seq<char>>::empty());
        assert(written + ids_at(ps, rem.take(0)) =~= written);
        assert forall|j: int| 0 <= j < o.len() implies !writable(ps[#[trigger] o[j]], pids, written + ids_at(ps, o.take(0))) by {
            if !g(rem[j]) {
                assert(r.contains(rem[j]));
            }
        }
        assert(writes_in_order(ps, pids, written, o, 0));
        return;
    }
    lemma_split_len(rem, g);
    let w2 = written + ids_at(ps, r);
    let o2 = write_rounds(ps, pids, w2, t);
    lemma_write_rounds(ps, pids, w2, t);
    lemma_split_multiset(rem, g);
    assert(o == r + o2);
    let k2 = choose|k: int| writes_in_order(ps, pids, w2, o2, k);
    let k = r.len() + k2;
    assert forall|j: int| 0 <= j < k implies writable(ps[#[trigger] o[j]], pids, written + ids_at(ps, o.take(j))) by {
        if j < r.len() {
            assert(o[j] == r[j]);
            assert(!g(r[j]));
            let more = written + ids_at(ps, o.take(j));
            assert forall|x: Seq<char>| written.contains(x) implies more.contains(x) by {
                let q = choose|q: int| 0 <= q < written.len() && written[q] == x;
                assert(more[q] == x);
            }
            lemma_writable_more(ps[o[j]], pids, written, more);
        } else {
            let j2 = j - r.len();
            assert(o[j] == o2[j2]);
            assert(writable(ps[o2[j2]], pids, w2 + ids_at(ps, o2.take(j2))));
            assert(o.take(j) =~= r + o2.take(j2));
            assert(ids_at(ps, r + o2.take(j2)) =~= ids_at(ps, r) + ids_at(ps, o2.take(j2)));
            assert(written + ids_at(ps, o.take(j)) =~= w2 + ids_at(ps, o2.take(j2)));
        }
    }
    assert forall|j: int| k <= j < o.len() implies !writable(ps[#[trigger] o[j]], pids, written + ids_at(ps, o.take(k))) by {
        let j2 = j - r.len();
        assert(o[j] == o2[j2]);
        assert(!writable(ps[o2[j2]], pids, w2 + ids_at(ps, o2.take(k2))));
        assert(o.take(k) =~= r + o2.take(k2));
        assert(ids_at(ps, r + o2.take(k2)) =~= ids_at(ps, r) + ids_at(ps, o2.take(k2)));
        assert(written + ids_at(ps, o.take(k)) =~= w2 + ids_at(ps, o2.take(k2)));
    }
    assert(writes_in_order(ps, pids, written, o, k));
}

/// Dependencies go in before the modules that need them: the install order writes every module
/// of the plan it wants exactly once, and each module before the members of a cycle (which
/// follow in the order found) after every module of the plan it needs.
pub proof fn install_order_writes_dependencies_first(ps: Seq<PlannedModule>, with_optional: bool)
    ensures
        install_order_of(ps, with_optional).to_multiset() =~= wanted_of(ps, with_optional).to_multiset(),
        exists|k: int|
            writes_in_order(
                ps,
                ids_at(ps, wanted_of(ps, with_optional)),
                Seq::empty(),
                install_order_of(ps, with_optional),
                k,
            ),
{
    let w = wanted_of(ps, with_optional);
    lemma_write_rounds(ps, ids_at(ps, w), Seq::empty(), w);
}

/// What `str::to_lowercase` gives for `s`.
pub uninterp spec fn lowercase(s: Seq<char>) -> Seq<char>;

/// `str::to_lowercase`: `s` in lower case, by Unicode's rules.
#[verifier::external_body]
fn lowercased(s: &str) -> (r: String)
    ensures
        r@ == lowercase(s@),
{
    s.to_lowercase()
}

/// The folder a repository installs into, as a file system that ignores case compares it.
pub open spec fn folder_key(repo: Seq<char>) -> Seq<char> {
    lowercase(after_last_slash(repo))
}

/// The last of `repos` that installs into the folder `key`.
pub open spec fn last_in_folder(repos: Seq<Seq<char>>, key: Seq<char>) -> Option<int> {
    if exists|k: int| 0 <= k < repos.len() && folder_key(repos[k]) == key {
        Some(
            choose|k: int|
                0 <= k < repos.len() && folder_key(repos[k]) == key && forall|q: int|
                    k < q < repos.len() ==> folder_key(#[trigger] repos[q]) != key,
        )
    } else {
        None
    }
}

/// Whether installed module `k` (its id and the name of its folder) holds the folder `key`
/// for a module other than `id`.
pub open spec fn holds_folder(inst: Seq<(Seq<char>, Seq<char>)>, dirs: Seq<Option<Seq<char>>>, k: int, id: Seq<char>, key: Seq<char>) -> bool {
    &&& inst[k].0 != id
    &&& dirs[k] matches Some(n) && lowercase(n) == key
}

/// The first installed module that holds the folder `key` for a module other than `id`.
pub open spec fn first_holder(inst: Seq<(Seq<char>, Seq<char>)>, dirs: Seq<Option<Seq<char>>>, id: Seq<char>, key: Seq<char>) -> Option<int> {
    if exists|k: int| 0 <= k < inst.len() && holds_folder(inst, dirs, k, id, key) {
        Some(
            choose|k: int|
                0 <= k < inst.len() && holds_folder(inst, dirs, k, id, key) && forall|q: int|
                    0 <= q < k ==> !#[trigger] holds_folder(inst, dirs, q, id, key),
        )
    } else {
        None
    }
}

/// What refusing two modules of one folder says.
pub open spec fn both_text(other: Seq<char>, repo: Seq<char>) -> Seq<char> {
    other + " and "@ + repo + " would both be installed into modules/"@ + after_last_slash(repo)
}

/// What refusing a module whose folder another module holds says.
pub open spec fn held_text(name: Seq<char>, repo: Seq<char>, holder_name: Seq<char>, holder_id: Seq<char>) -> Seq<char> {
    one_line_of(name, 100) + " ("@ + repo + ") would be installed into modules/"@ + after_last_slash(repo)
        + ", which holds another module, "@ + one_line_of(holder_name, 100) + " ("@ + holder_id
        + "). Uninstall that one first."@
}

/// The verdict on the modules `new` (repository, id, name), in order, when `prior` lists the
/// repositories whose folders are already spoken for and `inst` (id, name) the installed
/// modules, whose folders are named `dirs`: the first module whose folder an earlier one
/// takes, or an installed module of another id holds, is refused.
pub open spec fn folders_verdict(
    new: Seq<(Seq<char>, Seq<char>, Seq<char>)>,
    prior: Seq<Seq<char>>,
    inst: Seq<(Seq<char>, Seq<char>)>,
    dirs: Seq<Option<Seq<char>>>,
) -> Result<(), Seq<char>>
    decreases new.len(),
{
    if new.len() == 0 {
        Ok(())
    } else {
        let p = new[0];
        let key = folder_key(p.0);
        match last_in_folder(prior, key) {
            Some(k) => Err(both_text(prior[k], p.0)),
            None => match first_holder(inst, dirs, p.1, key) {
                Some(h) => Err(held_text(p.2, p.0, inst[h].1, inst[h].0)),
                None => folders_verdict(new.drop_first(), prior.push(p.0), inst, dirs),
            },
        }
    }
}

/// A plan's modules as the folder check reads them: repository, id, name.
pub open spec fn planned_keys(ps: Seq<PlannedModule>) -> Seq<(Seq<char>, Seq<char>, Seq<char>)> {
    ps.map_values(|p: PlannedModule| (p.repo@, p.manifest.id@, p.manifest.name@))
}

/// The repositories of a plan's modules.
pub open spec fn planned_repos(ps: Seq<PlannedModule>) -> Seq<Seq<char>> {
    ps.map_values(|p: PlannedModule| p.repo@)
}

/// Installed modules as the folder check reads them: id, name.
pub open spec fn installed_keys(ms: Seq<InstalledModule>) -> Seq<(Seq<char>, Seq<char>)> {
    ms.map_values(|m: InstalledModule| (m.id@, m.name@))
}

fn find_last_in_folder(repos: &Vec<String>, keys: &Vec<String>, key: &str) -> (r: Option<usize>)
    requires
        repos@.len() == keys@.len(),
        forall|k: int| 0 <= k < keys@.len() ==> #[trigger] keys@[k]@ == folder_key(repos@[k]@),
    ensures
        match r {
            Some(k) => k < repos@.len() && last_in_folder(texts(repos@), key@) == Some(k as int),
            None => last_in_folder(texts(repos@), key@) is None,
        },
{
    let ghost rs = texts(repos@);
    let mut k = keys.len();
    while k > 0
        invariant
            k <= keys@.len(),
            repos@.len() == keys@.len(),
            rs == texts(repos@),
            forall|j: int| 0 <= j < keys@.len() ==> #[trigger] keys@[j]@ == folder_key(repos@[j]@),
            forall|q: int| k <= q < rs.len() ==> folder_key(#[trigger] rs[q]) != key@,
        decreases k,
    {
        if same_text(keys[k - 1].as_str(), key) {
            proof {
                let w = (k - 1) as int;
                assert(folder_key(rs[w]) == key@);
                let c = choose|c: int|
                    0 <= c < rs.len() && folder_key(rs[c]) == key@ && forall|q: int|
                        c < q < rs.len() ==> folder_key(#[trigger] rs[q]) != key@;
                if c < w {
                    assert(folder_key(rs[w]) != key@);
                }
                if c > w {
                    assert(folder_key(rs[c]) != key@);
                }
                assert(c == w);
            }
            return Some(k - 1);
        }
        proof {
            assert(folder_key(rs[k - 1]) != key@);
        }
        k -= 1;
    }
    None
}

fn find_holder(installed: &Vec<InstalledModule>, dirs: &Vec<Option<String>>, id: &str, key: &str) -> (r: Option<usize>)
    requires
        installed@.len() == dirs@.len(),
    ensures
        match r {
            Some(k) => k < installed@.len() && first_holder(installed_keys(installed@), dir_names(dirs@), id@, key@) == Some(k as int),
            None => first_holder(installed_keys(installed@), dir_names(dirs@), id@, key@) is None,
        },
{
    let ghost inst = installed_keys(installed@);
    let ghost ds = dir_names(dirs@);
    let mut k: usize = 0;
    while k < installed.len()
        invariant
            k <= installed@.len(),
            installed@.len() == dirs@.len(),
            inst == installed_keys(installed@),
            ds == dir_names(dirs@),
            forall|q: int| 0 <= q < k ==> !#[trigger] holds_folder(inst, ds, q, id@, key@),
        decreases installed@.len() - k,
    {
        let hit = match &dirs[k] {
            Some(n) => {
                let l = lowercased(n.as_str());
                !same_text(installed[k].id.as_str(), id) && same_text(l.as_str(), key)
            },
            None => false,
        };
        if hit {
            proof {
                let w = k as int;
                assert(holds_folder(inst, ds, w, id@, key@));
                let c = choose|c: int|
                    0 <= c < inst.len() && holds_folder(inst, ds, c, id@, key@) && forall|q: int|
                        0 <= q < c ==> !#[trigger] holds_folder(inst, ds, q, id@, key@);
                if c < w {
                    assert(!holds_folder(inst, ds, c, id@, key@));
                }
                if c > w {
                    assert(!holds_folder(inst, ds, w, id@, key@));
                }
                assert(c == w);
            }
            return Some(k);
        }
        proof {
            assert(!holds_folder(inst, ds, k as int, id@, key@));
        }
        k += 1;
    }
    None
}

/// The names of installed modules' folders, as text.
pub open spec fn dir_names(dirs: Seq<Option<String>>) -> Seq<Option<Seq<char>>> {
    dirs.map_values(|d: Option<String>| match d {
        Some(n) => Some(n@),
        None => None,
    })
}

/// Refuses modules of a plan (`new`) that would be written into a folder another module holds
/// or will hold: an installed module with another id, a module already in the plan
/// (`planned`), or another of `new`. The folder is the repository's name, compared without
/// case, as Windows and macOS compare it; `dirs` names the folder of each installed module
/// (`None` for one whose folder has no name).
#[verifier::spinoff_prover]
pub fn check_folders_named(
    new: &Vec<PlannedModule>,
    planned: &Vec<PlannedModule>,
    installed: &Vec<InstalledModule>,
    dirs: &Vec<Option<String>>,
) -> (r: Result<(), String>)
    requires
        installed@.len() == dirs@.len(),
    ensures
        (r is Ok) == (folders_verdict(planned_keys(new@), planned_repos(planned@), installed_keys(installed@), dir_names(dirs@)) is Ok),
        r matches Err(e) ==> folders_verdict(planned_keys(new@), planned_repos(planned@), installed_keys(installed@), dir_names(dirs@))
            == Err::<(), Seq<char>>(e@),
{
    let ghost inst = installed_keys(installed@);
    let ghost ds = dir_names(dirs@);
    let ghost all = planned_keys(new@);
    let mut repos: Vec<String> = Vec::new();
    let mut keys: Vec<String> = Vec::new();
    let mut j: usize = 0;
    while j < planned.len()
        invariant
            j <= planned@.len(),
            repos@.len() == keys@.len(),
            repos@.len() == j,
            texts(repos@) == planned_repos(planned@).take(j as int),
            forall|k: int| 0 <= k < keys@.len() ==> #[trigger] keys@[k]@ == folder_key(repos@[k]@),
        decreases planned@.len() - j,
    {
        let ghost before = texts(repos@);
        let repo = planned[j].repo.clone();
        let key = lowercased(repo_name(repo.as_str()));
        repos.push(repo);
        keys.push(key);
        proof {
            assert(repos@[j as int]@ == planned@[j as int].repo@);
            assert(planned_repos(planned@).take(j + 1) =~= planned_repos(planned@).take(j as int).push(planned@[j as int].repo@));
            assert(texts(repos@) =~= before.push(planned@[j as int].repo@));
        }
        j += 1;
    }
    proof {
        assert(planned_repos(planned@).take(planned@.len() as int) =~= planned_repos(planned@));
        assert(all.skip(0) =~= all);
    }
    let mut i: usize = 0;
    while i < new.len()
        invariant
            i <= new@.len(),
            installed@.len() == dirs@.len(),
            inst == installed_keys(installed@),
            ds == dir_names(dirs@),
            all == planned_keys(new@),
            repos@.len() == keys@.len(),
            forall|k: int| 0 <= k < keys@.len() ==> #[trigger] keys@[k]@ == folder_key(repos@[k]@),
            folders_verdict(all, planned_repos(planned@), inst, ds) == folders_verdict(all.skip(i as int), texts(repos@), inst, ds),
        decreases new@.len() - i,
    {
        let ghost rest = all.skip(i as int);
        proof {
            assert(rest.len() > 0);
            assert(rest[0] == all[i as int]);
            assert(all[i as int] == (new@[i as int].repo@, new@[i as int].manifest.id@, new@[i as int].manifest.name@));
            assert(rest.drop_first() =~= all.skip(i + 1));
        }
        let p = &new[i];
        let key = lowercased(repo_name(p.repo.as_str()));
        match find_last_in_folder(&repos, &keys, key.as_str()) {
            Some(k) => {
                let mut msg = joined(repos[k].as_str(), " and ");
                msg.append(p.repo.as_str());
                msg.append(" would both be installed into modules/");
                msg.append(repo_name(p.repo.as_str()));
                proof {
                    assert(texts(repos@)[k as int] == repos@[k as int]@);
                }
                return Err(msg);
            },
            None => {},
        }
        match find_holder(installed, dirs, p.manifest.id.as_str(), key.as_str()) {
            Some(h) => {
                let mut msg = one_line(p.manifest.name.as_str(), 100);
                msg.append(" (");
                msg.append(p.repo.as_str());
                msg.append(") would be installed into modules/");
                msg.append(repo_name(p.repo.as_str()));
                msg.append(", which holds another module, ");
                msg.append(one_line(installed[h].name.as_str(), 100).as_str());
                msg.append(" (");
                msg.append(installed[h].id.as_str());
                msg.append("). Uninstall that one first.");
                proof {
                    assert(inst[h as int] == (installed@[h as int].id@, installed@[h as int].name@));
                }
                return Err(msg);
            },
            None => {},
        }
        let ghost before = texts(repos@);
        repos.push(p.repo.clone());
        keys.push(key);
        proof {
            assert(texts(repos@) =~= before.push(p.repo@));
        }
        i += 1;
    }
    Ok(())
}

/// The names of the installed modules' folders: the last name of each one's path.
pub open spec fn installed_dirs(ms: Seq<InstalledModule>) -> Seq<Option<Seq<char>>> {
    ms.map_values(|m: InstalledModule| path_file_name(buf_path(&m.dir)))
}

/// [`check_folders_named`], each installed module's folder named by the last name of its
/// path.
pub fn check_folders(new: &Vec<PlannedModule>, planned: &Vec<PlannedModule>, installed: &Vec<InstalledModule>) -> (r: Result<(), String>)
    ensures
        (r is Ok) == (folders_verdict(planned_keys(new@), planned_repos(planned@), installed_keys(installed@), installed_dirs(installed@)) is Ok),
        r matches Err(e) ==> folders_verdict(planned_keys(new@), planned_repos(planned@), installed_keys(installed@), installed_dirs(installed@))
            == Err::<(), Seq<char>>(e@),
{
    let mut dirs: Vec<Option<String>> = Vec::new();
    let mut k: usize = 0;
    while k < installed.len()
        invariant
            k <= installed@.len(),
            dir_names(dirs@) == installed_dirs(installed@).take(k as int),
        decreases installed@.len() - k,
    {
        let ghost before = dir_names(dirs@);
        dirs.push(file_name_of(installed[k].dir.as_path()));
        proof {
            assert(dir_names(dirs@) =~= before.push(installed_dirs(installed@)[k as int]));
            assert(installed_dirs(installed@).take(k + 1) =~= installed_dirs(installed@).take(k as int).push(installed_dirs(installed@)[k as int]));
        }
        k += 1;
    }
    proof {
        assert(installed_dirs(installed@).take(k as int) =~= installed_dirs(installed@));
    }
    check_folders_named(new, planned, installed, &dirs)
}

/// A plan the folder check accepts takes no folder twice: no two of its new modules share a
/// folder, none takes the folder of a module already in the plan, and none lands in a folder
/// an installed module of another id holds.
pub proof fn an_accepted_plan_takes_no_folder_twice(
    new: Seq<(Seq<char>, Seq<char>, Seq<char>)>,
    prior: Seq<Seq<char>>,
    inst: Seq<(Seq<char>, Seq<char>)>,
    dirs: Seq<Option<Seq<char>>>,
)
    requires
        folders_verdict(new, prior, inst, dirs) is Ok,
    ensures
        forall|i: int, j: int| 0 <= i < j < new.len() ==> folder_key(#[trigger] new[i].0) != folder_key(#[trigger] new[j].0),
        forall|i: int, k: int|
            0 <= i < new.len() && 0 <= k < prior.len() ==> folder_key(#[trigger] new[i].0) != folder_key(#[trigger] prior[k]),
        forall|i: int, k: int|
            0 <= i < new.len() && 0 <= k < inst.len() ==> !#[trigger] holds_folder(inst, dirs, k, new[i].1, folder_key(new[i].0)),
    decreases new.len(),
{
    if new.len() > 0 {
        let p = new[0];
        let key = folder_key(p.0);
        let rest = new.drop_first();
        let more = prior.push(p.0);
        an_accepted_plan_takes_no_folder_twice(rest, more, inst, dirs);
        assert forall|k: int| 0 <= k < prior.len() implies folder_key(prior[k]) != key by {
            if folder_key(prior[k]) == key {
                assert(last_in_folder(prior, key) is Some);
            }
        }
        assert forall|k: int| 0 <= k < inst.len() implies !holds_folder(inst, dirs, k, p.1, key) by {
            if holds_folder(inst, dirs, k, p.1, key) {
                assert(first_holder(inst, dirs, p.1, key) is Some);
            }
        }
        assert forall|i: int, j: int| 0 <= i < j < new.len() implies folder_key(#[trigger] new[i].0) != folder_key(
            #[trigger] new[j].0,
        ) by {
            if i == 0 {
                assert(new[j] == rest[j - 1]);
                assert(more[prior.len() as int] == p.0);
                assert(folder_key(rest[j - 1].0) != folder_key(more[prior.len() as int]));
            } else {
                assert(new[i] == rest[i - 1]);
                assert(new[j] == rest[j - 1]);
            }
        }
        assert forall|i: int, k: int| 0 <= i < new.len() && 0 <= k < prior.len() implies folder_key(
            #[trigger] new[i].0,
        ) != folder_key(#[trigger] prior[k]) by {
            if i > 0 {
                assert(new[i] == rest[i - 1]);
                assert(more[k] == prior[k]);
                assert(folder_key(rest[i - 1].0) != folder_key(more[k]));
            }
        }
        assert forall|i: int, k: int| 0 <= i < new.len() && 0 <= k < inst.len() implies !#[trigger] holds_folder(
            inst,
            dirs,
            k,
            new[i].1,
            folder_key(new[i].0),
        ) by {
            if i > 0 {
                assert(new[i] == rest[i - 1]);
                assert(!holds_folder(inst, dirs, k, rest[i - 1].1, folder_key(rest[i - 1].0)));
            }
        }
    }
}

} // verus!
