//! Who is photographed and recognised next: the queue behind `host.ocr.read`, with no threads
//! and no clock of its own (times are milliseconds handed in by the caller).
//!
//! A job goes through four stages: waiting for its capture, being captured, captured, and being
//! recognised. It carries one or more tickets, the calls waiting for its answer. Two calls that
//! ask for the same thing while the first has not been photographed yet become one job.
//!
//! - Latest wins per key: a ticket with a key makes older tickets of the same module VM with the
//!   same key stale, as long as their job has not started recognising.
//! - Interactive first, unless a background job has waited `AGING_MS`; within a lane, module
//!   VMs take turns.
//! - A job's priority is its tickets'.
//! - Bounded: `PER_OWNER` tickets per module VM and `TOTAL` jobs.
//! - Background captures wait while the picture budget is exceeded.
//! - The module about to act goes first (`expedite`).
use vstd::prelude::*;

use crate::policy::{AGING_MS, PER_OWNER, TOTAL};
use crate::text::same_text;
use crate::types::{prio_max, priority_max, Priority};
use vstd::string::StringExecFns;

verus! {

pub type TicketId = u64;

pub type JobId = u64;

/// A module VM: its index, and which incarnation of it (a reload makes a new one).
#[derive(Clone, Copy, Debug, PartialEq, Eq, Structural, Hash)]
pub struct Owner {
    pub idx: usize,
    pub gen: u64,
}

/// One call waiting for a job's answer.
#[derive(Clone, Debug, PartialEq, Eq)]
pub struct Ticket {
    pub id: TicketId,
    pub owner: Owner,
    pub key: Option<String>,
    pub prio: Priority,
}

#[derive(Clone, Copy, Debug, PartialEq, Eq, Structural)]
pub enum Stage {
    AwaitCapture,
    Capturing,
    Captured,
    Recognising,
}

/// How urgently something waits for the capture thread, most urgent first.
#[derive(Clone, Copy, Debug, PartialEq, Eq, Structural, PartialOrd, Ord, Hash)]
pub enum Class {
    Urgent,
    Aged,
    Interactive,
    Background,
}

/// The position of a class in the order the capture thread serves them.
pub open spec fn class_rank(c: Class) -> int {
    match c {
        Class::Urgent => 0,
        Class::Aged => 1,
        Class::Interactive => 2,
        Class::Background => 3,
    }
}

pub fn class_order(c: Class) -> (r: u8)
    ensures
        r == class_rank(c),
{
    match c {
        Class::Urgent => 0,
        Class::Aged => 1,
        Class::Interactive => 2,
        Class::Background => 3,
    }
}

/// The next thing a queue would photograph: its class, and since when it has been due.
#[derive(Clone, Copy, Debug, PartialEq, Eq, Structural)]
pub struct Cand {
    pub class: Class,
    pub due: u64,
}

/// What became of a submission.
#[derive(Debug, Default, PartialEq, Eq)]
pub struct Submitted {
    /// The job the new ticket is on; `None` when it was refused.
    pub job: Option<JobId>,
    /// It joined a job another call had asked for.
    pub joined: bool,
    /// Tickets this one superseded: delivered as `stale`.
    pub stale: Vec<TicketId>,
    /// Tickets evicted to make room: delivered as `failed` with [`TOO_MANY`].
    pub evicted: Vec<TicketId>,
    /// Why the new ticket itself was refused.
    pub refused: Option<String>,
}

/// The reason an evicted ticket, or a refused one, carries.
pub const TOO_MANY: &'static str = "too many reads waiting \u{2014} put regions that belong together in one call (up to 64)";

/// The reason a read is refused when the whole application has `TOTAL` jobs queued.
pub const ALL_FULL: &'static str = "too many reads waiting in the whole application (256); this one was not taken";

/// What the recognise stage is handed.
pub struct Started<S, P> {
    pub id: JobId,
    pub spec: S,
    pub pixels: P,
    pub prio: Priority,
    pub asked: u64,
    pub capture_started: u64,
    pub captured_at: u64,
}

struct Job<S, P> {
    id: JobId,
    spec: S,
    prio: Priority,
    urgent: bool,
    tickets: Vec<Ticket>,
    stage: Stage,
    asked: u64,
    capture_started: Option<u64>,
    captured_at: Option<u64>,
    pixels: Option<P>,
    bytes: usize,
}

/// A job as the contracts see it.
pub struct JobView<S, P> {
    pub id: JobId,
    pub spec: S,
    pub prio: Priority,
    pub urgent: bool,
    pub tickets: Seq<Ticket>,
    pub stage: Stage,
    pub asked: u64,
    pub capture_started: Option<u64>,
    pub captured_at: Option<u64>,
    pub pixels: Option<P>,
    pub bytes: usize,
}

impl<S, P> Job<S, P> {
    closed spec fn view(&self) -> JobView<S, P> {
        JobView {
            id: self.id,
            spec: self.spec,
            prio: self.prio,
            urgent: self.urgent,
            tickets: self.tickets@,
            stage: self.stage,
            asked: self.asked,
            capture_started: self.capture_started,
            captured_at: self.captured_at,
            pixels: self.pixels,
            bytes: self.bytes,
        }
    }
}

/// The priority a set of tickets gives its job: interactive while any of them is.
pub open spec fn tickets_prio(ts: Seq<Ticket>) -> Priority {
    if exists|i: int| 0 <= i < ts.len() && (#[trigger] ts[i]).prio == Priority::Interactive {
        Priority::Interactive
    } else {
        Priority::Background
    }
}

/// What every job keeps true: a job nobody is recognising has a ticket and its tickets'
/// priority, and only a captured job holds pixels.
pub open spec fn job_ok<S, P>(j: JobView<S, P>) -> bool {
    &&& j.stage != Stage::Recognising ==> j.tickets.len() > 0 && j.prio == tickets_prio(j.tickets)
    &&& (j.pixels is Some <==> j.stage == Stage::Captured)
}

/// The module VM that takes its turn for a job: the first caller's.
pub open spec fn lead<S, P>(j: JobView<S, P>) -> usize {
    if j.tickets.len() == 0 {
        usize::MAX
    } else {
        j.tickets[0].owner.idx
    }
}

/// Whether `t` carries the key `k`.
pub open spec fn has_key(t: Ticket, k: Seq<char>) -> bool {
    match t.key {
        Some(s) => s@ == k,
        None => false,
    }
}

/// Which tickets a removal takes off their jobs.
pub enum Removal {
    /// `owner`'s tickets with `key` whose job has not started recognising.
    Superseded { owner: Owner, key: Seq<char> },
    /// The ticket with this id.
    Evicted { id: TicketId },
    /// Every ticket of module `idx`.
    Cancelled { idx: usize },
}

pub open spec fn removes(r: Removal, stage: Stage, t: Ticket) -> bool {
    match r {
        Removal::Superseded { owner, key } => stage != Stage::Recognising && t.owner == owner
            && has_key(t, key),
        Removal::Evicted { id } => t.id == id,
        Removal::Cancelled { idx } => t.owner.idx == idx,
    }
}

/// The tickets of `ts` (all on a job at `stage`) that `r` leaves.
pub open spec fn kept(ts: Seq<Ticket>, stage: Stage, r: Removal) -> Seq<Ticket>
    decreases ts.len(),
{
    if ts.len() == 0 {
        Seq::empty()
    } else {
        let rest = kept(ts.drop_last(), stage, r);
        if removes(r, stage, ts.last()) {
            rest
        } else {
            rest.push(ts.last())
        }
    }
}

/// The ids of the tickets of `ts` (all on a job at `stage`) that `r` takes, in order.
pub open spec fn taken(ts: Seq<Ticket>, stage: Stage, r: Removal) -> Seq<TicketId>
    decreases ts.len(),
{
    if ts.len() == 0 {
        Seq::empty()
    } else {
        let rest = taken(ts.drop_last(), stage, r);
        if removes(r, stage, ts.last()) {
            rest.push(ts.last().id)
        } else {
            rest
        }
    }
}

/// `j` with the tickets `r` leaves.
pub open spec fn strip_job<S, P>(j: JobView<S, P>, r: Removal) -> JobView<S, P> {
    JobView { tickets: kept(j.tickets, j.stage, r), ..j }
}

/// Every job with the tickets `r` leaves.
pub open spec fn strip_all<S, P>(jobs: Seq<JobView<S, P>>, r: Removal) -> Seq<JobView<S, P>> {
    Seq::new(jobs.len(), |i: int| strip_job(jobs[i], r))
}

/// The ids of every ticket `r` takes, job by job in order.
pub open spec fn taken_all<S, P>(jobs: Seq<JobView<S, P>>, r: Removal) -> Seq<TicketId>
    decreases jobs.len(),
{
    if jobs.len() == 0 {
        Seq::empty()
    } else {
        taken_all(jobs.drop_last(), r) + taken(jobs.last().tickets, jobs.last().stage, r)
    }
}

/// After tickets were taken off: a job nobody waits for is dropped, unless it is being
/// recognised, and every other job takes its tickets' priority.
pub open spec fn settle<S, P>(jobs: Seq<JobView<S, P>>) -> Seq<JobView<S, P>>
    decreases jobs.len(),
{
    if jobs.len() == 0 {
        Seq::empty()
    } else {
        let rest = settle(jobs.drop_last());
        let j = jobs.last();
        if j.stage == Stage::Recognising {
            rest.push(j)
        } else if j.tickets.len() == 0 {
            rest
        } else {
            rest.push(JobView { prio: tickets_prio(j.tickets), ..j })
        }
    }
}

/// The jobs after removal `r`, and the ids it took.
pub open spec fn remove_model<S, P>(jobs: Seq<JobView<S, P>>, r: Removal) -> (Seq<JobView<S, P>>, Seq<TicketId>) {
    (settle(strip_all(jobs, r)), taken_all(jobs, r))
}

/// The number of tickets of `o` on all jobs.
pub open spec fn owner_count<S, P>(jobs: Seq<JobView<S, P>>, o: Owner) -> nat
    decreases jobs.len(),
{
    if jobs.len() == 0 {
        0
    } else {
        owner_count(jobs.drop_last(), o) + ticket_count(jobs.last().tickets, o)
    }
}

pub open spec fn ticket_count(ts: Seq<Ticket>, o: Owner) -> nat
    decreases ts.len(),
{
    if ts.len() == 0 {
        0
    } else {
        ticket_count(ts.drop_last(), o) + if ts.last().owner == o {
            1nat
        } else {
            0nat
        }
    }
}

/// The ids of `o`'s unkeyed tickets whose job has not started recognising: who may be evicted.
pub open spec fn evictable<S, P>(jobs: Seq<JobView<S, P>>, o: Owner) -> Seq<TicketId>
    decreases jobs.len(),
{
    if jobs.len() == 0 {
        Seq::empty()
    } else {
        let j = jobs.last();
        evictable(jobs.drop_last(), o) + if j.stage != Stage::Recognising {
            unkeyed_ids(j.tickets, o)
        } else {
            Seq::empty()
        }
    }
}

pub open spec fn unkeyed_ids(ts: Seq<Ticket>, o: Owner) -> Seq<TicketId>
    decreases ts.len(),
{
    if ts.len() == 0 {
        Seq::empty()
    } else {
        let rest = unkeyed_ids(ts.drop_last(), o);
        if ts.last().owner == o && ts.last().key is None {
            rest.push(ts.last().id)
        } else {
            rest
        }
    }
}

/// The smallest of a non-empty sequence of ids.
pub open spec fn seq_min(s: Seq<u64>) -> u64
    decreases s.len(),
{
    if s.len() <= 1 {
        s[0]
    } else {
        let m = seq_min(s.drop_last());
        if s.last() < m {
            s.last()
        } else {
            m
        }
    }
}

/// What a read asks for, as the queue compares requests: two reads that ask for the same thing
/// before the first is photographed share one job.
pub trait SameRequest {
    /// Whether `self` and `other` ask for the same thing.
    spec fn same_as(&self, other: &Self) -> bool;

    /// Whether `self` and `other` ask for the same thing.
    fn same(&self, other: &Self) -> (r: bool)
        ensures
            r == self.same_as(other),
    ;
}

impl<'a> SameRequest for &'a str {
    open spec fn same_as(&self, other: &Self) -> bool {
        (*self)@ == (*other)@
    }

    fn same(&self, other: &Self) -> (r: bool) {
        same_text(*self, *other)
    }
}

impl SameRequest for String {
    open spec fn same_as(&self, other: &Self) -> bool {
        self@ == other@
    }

    fn same(&self, other: &Self) -> (r: bool) {
        same_text(self.as_str(), other.as_str())
    }
}

impl SameRequest for u64 {
    open spec fn same_as(&self, other: &Self) -> bool {
        *self == *other
    }

    fn same(&self, other: &Self) -> (r: bool) {
        *self == *other
    }
}


/// The first index of a job waiting for its capture whose description equals `spec`.
pub open spec fn join_index<S: SameRequest, P>(jobs: Seq<JobView<S, P>>, spec: S) -> Option<int> {
    first_where(jobs, |j: JobView<S, P>| waiting(j) && j.spec.same_as(&spec))
}

/// Whether a background job asked at `asked` has waited `AGING_MS` by `now`.
pub open spec fn aged(now: u64, asked: u64) -> bool {
    now - asked >= AGING_MS
}

pub open spec fn waiting<S, P>(j: JobView<S, P>) -> bool {
    j.stage == Stage::AwaitCapture
}

pub open spec fn with_id<S, P>(id: JobId) -> spec_fn(JobView<S, P>) -> bool {
    |j: JobView<S, P>| j.id == id
}

/// The first index of `jobs` at which `p` holds.
pub open spec fn first_where<S, P>(jobs: Seq<JobView<S, P>>, p: spec_fn(JobView<S, P>) -> bool) -> Option<int>
    decreases jobs.len(),
{
    if jobs.len() == 0 {
        None
    } else {
        match first_where(jobs.drop_last(), p) {
            Some(i) => Some(i),
            None => if p(jobs.last()) {
                Some(jobs.len() - 1)
            } else {
                None
            },
        }
    }
}

pub open spec fn urgent_waiting<S, P>() -> spec_fn(JobView<S, P>) -> bool {
    |j: JobView<S, P>| waiting(j) && j.urgent
}

pub open spec fn aged_waiting<S, P>(now: u64) -> spec_fn(JobView<S, P>) -> bool {
    |j: JobView<S, P>| waiting(j) && j.prio == Priority::Background && aged(now, j.asked)
}

pub open spec fn interactive_waiting_job<S, P>() -> spec_fn(JobView<S, P>) -> bool {
    |j: JobView<S, P>| waiting(j) && j.prio == Priority::Interactive
}

pub open spec fn any_waiting<S, P>() -> spec_fn(JobView<S, P>) -> bool {
    |j: JobView<S, P>| waiting(j)
}

/// The job `take_capture` photographs next: an urgent one whatever the budget; then a background
/// job that has waited `AGING_MS`; then interactive ones; then the rest in the order asked.
/// Background jobs only while the budget is not exceeded.
pub open spec fn capture_pick<S, P>(jobs: Seq<JobView<S, P>>, over_budget: bool, now: u64) -> Option<int> {
    match first_where(jobs, urgent_waiting()) {
        Some(i) => Some(i),
        None => match if over_budget {
            None
        } else {
            first_where(jobs, aged_waiting(now))
        } {
            Some(i) => Some(i),
            None => match first_where(jobs, interactive_waiting_job()) {
                Some(i) => Some(i),
                None => if over_budget {
                    None
                } else {
                    first_where(jobs, any_waiting())
                },
            },
        },
    }
}

/// The class of a waiting job, as the capture thread weighs it.
pub open spec fn job_class<S, P>(j: JobView<S, P>, now: u64) -> Class {
    if j.urgent {
        Class::Urgent
    } else if j.prio == Priority::Interactive {
        Class::Interactive
    } else if aged(now, j.asked) {
        Class::Aged
    } else {
        Class::Background
    }
}

pub open spec fn ready_in<S, P>(j: JobView<S, P>, want: Priority) -> bool {
    j.stage == Stage::Captured && j.prio == want
}

/// Whether some captured job has priority `p`.
pub open spec fn any_ready<S, P>(jobs: Seq<JobView<S, P>>, p: Priority) -> bool {
    exists|i: int| 0 <= i < jobs.len() && ready_in(#[trigger] jobs[i], p)
}

/// Whether some captured background job has waited `AGING_MS`.
pub open spec fn any_aged_ready<S, P>(jobs: Seq<JobView<S, P>>, now: u64) -> bool {
    exists|i: int|
        0 <= i < jobs.len() && ready_in(#[trigger] jobs[i], Priority::Background) && aged(
            now,
            jobs[i].asked,
        )
}

/// The lane recognised next: interactive, unless a captured background job has waited
/// `AGING_MS`.
pub open spec fn lane_wanted<S, P>(jobs: Seq<JobView<S, P>>, now: u64) -> Priority {
    if any_ready(jobs, Priority::Interactive) && !(any_ready(jobs, Priority::Background)
        && any_aged_ready(jobs, now)) {
        Priority::Interactive
    } else {
        Priority::Background
    }
}

/// The smallest lead above `floor` among the captured jobs of lane `want`.
pub open spec fn min_lead_above<S, P>(jobs: Seq<JobView<S, P>>, want: Priority, floor: int) -> Option<usize>
    decreases jobs.len(),
{
    if jobs.len() == 0 {
        None
    } else {
        let rest = min_lead_above(jobs.drop_last(), want, floor);
        let j = jobs.last();
        if ready_in(j, want) && lead(j) > floor {
            match rest {
                Some(m) => if lead(j) < m {
                    Some(lead(j))
                } else {
                    Some(m)
                },
                None => Some(lead(j)),
            }
        } else {
            rest
        }
    }
}

/// The VM whose turn it is in lane `want`: the next after the one served last, in index
/// order, wrapping.
pub open spec fn next_lead<S, P>(jobs: Seq<JobView<S, P>>, want: Priority, last: Option<usize>) -> usize {
    match last {
        Some(l) => match min_lead_above(jobs, want, l as int) {
            Some(m) => m,
            None => min_lead_above(jobs, want, -1).unwrap(),
        },
        None => min_lead_above(jobs, want, -1).unwrap(),
    }
}

/// The sum of the bytes of the captured jobs.
pub open spec fn captured_sum<S, P>(jobs: Seq<JobView<S, P>>) -> int
    decreases jobs.len(),
{
    if jobs.len() == 0 {
        0
    } else {
        captured_sum(jobs.drop_last()) + if jobs.last().stage == Stage::Captured {
            jobs.last().bytes as int
        } else {
            0
        }
    }
}

/// Whether a ticket of module `idx` is on job `j`.
pub open spec fn owns<S, P>(j: JobView<S, P>, idx: usize) -> bool {
    exists|k: int| 0 <= k < j.tickets.len() && (#[trigger] j.tickets[k]).owner.idx == idx
}

pub open spec fn capturing_id<S, P>(id: JobId) -> spec_fn(JobView<S, P>) -> bool {
    |j: JobView<S, P>| j.id == id && j.stage == Stage::Capturing
}

/// The jobs after `expedite(idx)`: every waiting job of module `idx` is urgent.
pub open spec fn expedited<S, P>(jobs: Seq<JobView<S, P>>, idx: usize) -> Seq<JobView<S, P>> {
    Seq::new(
        jobs.len(),
        |i: int|
            if waiting(jobs[i]) && owns(jobs[i], idx) {
                JobView { urgent: true, ..jobs[i] }
            } else {
                jobs[i]
            },
    )
}

pub struct Scheduler<S, P> {
    /// In the order they were asked for.
    jobs: Vec<Job<S, P>>,
    next_job: JobId,
    /// The module VM each lane served last, for taking turns.
    last_interactive: Option<usize>,
    last_background: Option<usize>,
}

impl<S, P> Scheduler<S, P> {
    /// The jobs, in the order they were asked for.
    pub closed spec fn jobs(&self) -> Seq<JobView<S, P>> {
        self.jobs@.map_values(|j: Job<S, P>| j.view())
    }

    /// The id the next new job gets.
    pub closed spec fn next_id(&self) -> JobId {
        self.next_job
    }

    /// The module VM lane `p` served last.
    pub closed spec fn last_served(&self, p: Priority) -> Option<usize> {
        match p {
            Priority::Interactive => self.last_interactive,
            Priority::Background => self.last_background,
        }
    }

    /// The queue's invariant: job ids are distinct and below the next one, every job keeps
    /// `job_ok`, and at most `TOTAL` jobs are queued.
    pub closed spec fn wf(&self) -> bool {
        let jobs = self.jobs();
        &&& forall|i: int| 0 <= i < jobs.len() ==> (#[trigger] jobs[i]).id < self.next_job
        &&& forall|i: int, k: int|
            0 <= i < k < jobs.len() ==> (#[trigger] jobs[i]).id != (#[trigger] jobs[k]).id
        &&& forall|i: int| 0 <= i < jobs.len() ==> job_ok(#[trigger] jobs[i])
        &&& jobs.len() <= TOTAL
    }
}


/// An expedited read is taken first: while any job waiting for its picture is marked urgent,
/// the capture thread takes the first such job, whatever the budget and however long others
/// have waited.
pub proof fn an_expedited_read_is_taken_first<S, P>(jobs: Seq<JobView<S, P>>, over_budget: bool, now: u64)
    requires
        exists|i: int| 0 <= i < jobs.len() && (urgent_waiting::<S, P>())(#[trigger] jobs[i]),
    ensures
        capture_pick(jobs, over_budget, now) matches Some(i) && 0 <= i < jobs.len() && (urgent_waiting::<S, P>())(jobs[i])
            && forall|k: int| 0 <= k < i ==> !(urgent_waiting::<S, P>())(#[trigger] jobs[k]),
{
    lemma_first_where(jobs, urgent_waiting());
}

proof fn lemma_min_lead_above<S, P>(jobs: Seq<JobView<S, P>>, want: Priority, floor: int)
    ensures
        match min_lead_above(jobs, want, floor) {
            Some(m) => m > floor && exists|i: int| 0 <= i < jobs.len() && ready_in(#[trigger] jobs[i], want) && lead(jobs[i]) == m,
            None => forall|i: int| 0 <= i < jobs.len() && ready_in(#[trigger] jobs[i], want) ==> lead(jobs[i]) <= floor,
        },
    decreases jobs.len(),
{
    if jobs.len() > 0 {
        let pre = jobs.drop_last();
        lemma_min_lead_above(pre, want, floor);
        assert forall|i: int| 0 <= i < pre.len() implies pre[i] == jobs[i] by {}
        match min_lead_above(pre, want, floor) {
            Some(m) => {
                let i = choose|i: int| 0 <= i < pre.len() && ready_in(#[trigger] pre[i], want) && lead(pre[i]) == m;
                assert(jobs[i] == pre[i]);
            },
            None => {},
        }
    }
}

/// The recogniser takes a captured job whenever there is one, from the lane `lane_wanted`
/// chooses: interactive while such a job is captured, unless a captured background job has
/// waited `AGING_MS`. It finds nothing to take exactly when no job is captured, and what it
/// takes is a captured job of that lane.
pub proof fn the_recogniser_takes_a_captured_job_of_the_lane_it_wants<S, P>(jobs: Seq<JobView<S, P>>, now: u64, last: Option<usize>)
    ensures
        (min_lead_above(jobs, lane_wanted(jobs, now), -1) is None) == !(any_ready(jobs, Priority::Interactive) || any_ready(
            jobs,
            Priority::Background,
        )),
        lane_wanted(jobs, now) == Priority::Interactive <==> (any_ready(jobs, Priority::Interactive) && !(any_ready(
            jobs,
            Priority::Background,
        ) && any_aged_ready(jobs, now))),
        min_lead_above(jobs, lane_wanted(jobs, now), -1) is Some ==> (first_where(
            jobs,
            lead_is(lane_wanted(jobs, now), next_lead(jobs, lane_wanted(jobs, now), last)),
        ) matches Some(i) && 0 <= i < jobs.len() && ready_in(jobs[i], lane_wanted(jobs, now))),
{
    let want = lane_wanted(jobs, now);
    lemma_min_lead_above(jobs, want, -1);
    if any_ready(jobs, want) {
        let i = choose|i: int| 0 <= i < jobs.len() && ready_in(#[trigger] jobs[i], want);
        assert(lead(jobs[i]) > -1);
    }
    if min_lead_above(jobs, want, -1) is Some {
        let nl = next_lead(jobs, want, last);
        match last {
            Some(l) => {
                lemma_min_lead_above(jobs, want, l as int);
            },
            None => {},
        }
        let i = choose|i: int| 0 <= i < jobs.len() && ready_in(#[trigger] jobs[i], want) && lead(jobs[i]) == nl;
        lemma_first_where(jobs, lead_is(want, nl));
        assert((lead_is(want, nl))(jobs[i]));
    }
}

/// `first_where` finds the first index at which `p` holds, and `None` means it holds nowhere.
pub proof fn lemma_first_where<S, P>(s: Seq<JobView<S, P>>, p: spec_fn(JobView<S, P>) -> bool)
    ensures
        match first_where(s, p) {
            Some(i) => 0 <= i < s.len() && p(s[i]) && forall|k: int| 0 <= k < i ==> !p(#[trigger] s[k]),
            None => forall|k: int| 0 <= k < s.len() ==> !p(#[trigger] s[k]),
        },
    decreases s.len(),
{
    if s.len() > 0 {
        lemma_first_where(s.drop_last(), p);
        assert(forall|k: int| 0 <= k < s.len() - 1 ==> s.drop_last()[k] == s[k]);
    }
}

impl<S, P> Scheduler<S, P> {
    proof fn lemma_jobs_view(&self)
        ensures
            self.jobs().len() == self.jobs@.len(),
            forall|i: int| 0 <= i < self.jobs@.len() ==> #[trigger] self.jobs()[i] == self.jobs@[i].view(),
    {
    }
}

impl<S: Clone + SameRequest, P> Scheduler<S, P> {
    pub fn new() -> (s: Self)
        ensures
            s.wf(),
            s.jobs().len() == 0,
            s.next_id() == 1,
            s.last_served(Priority::Interactive) is None,
            s.last_served(Priority::Background) is None,
    {
        let s = Scheduler { jobs: Vec::new(), next_job: 1, last_interactive: None, last_background: None };
        assert(s.jobs() =~= Seq::<JobView<S, P>>::empty());
        s
    }

    /// Jobs in any stage.
    pub fn len(&self) -> (n: usize)
        ensures
            n == self.jobs().len(),
    {
        self.jobs.len()
    }

    pub fn is_empty(&self) -> (b: bool)
        ensures
            b == (self.jobs().len() == 0),
    {
        self.jobs.len() == 0
    }

    /// The index of the first job with id `id`.
    fn find(&self, id: JobId) -> (r: Option<usize>)
        ensures
            r matches Some(i) ==> i < self.jobs().len() && first_where(self.jobs(), with_id(id)) == Some(i as int),
            r is None ==> first_where(self.jobs(), with_id(id)) is None,
    {
        let ghost p = with_id::<S, P>(id);
        proof {
            lemma_first_where(self.jobs(), p);
            self.lemma_jobs_view();
        }
        let mut i: usize = 0;
        while i < self.jobs.len()
            invariant
                i <= self.jobs@.len(),
                p == with_id::<S, P>(id),
                forall|k: int| 0 <= k < i ==> !p(#[trigger] self.jobs()[k]),
            decreases self.jobs@.len() - i,
        {
            proof {
                self.lemma_jobs_view();
            }
            assert(self.jobs()[i as int] == self.jobs@[i as int].view());
            if self.jobs[i].id == id {
                proof {
                    lemma_first_where(self.jobs(), p);
                }
                return Some(i);
            }
            i += 1;
        }
        None
    }

    /// The stage of `id`.
    pub fn stage(&self, id: JobId) -> (r: Option<Stage>)
        ensures
            r == match first_where(self.jobs(), with_id(id)) {
                Some(i) => Some(self.jobs()[i].stage),
                None => None,
            },
    {
        match self.find(id) {
            Some(i) => {
                proof {
                    self.lemma_jobs_view();
                }
                Some(self.jobs[i].stage)
            },
            None => None,
        }
    }
}


impl<S: Clone + SameRequest, P> Scheduler<S, P> {
    /// Whether a ticket of module `idx` is on job `i`.
    fn job_owned_by(&self, i: usize, idx: usize) -> (r: bool)
        requires
            i < self.jobs().len(),
        ensures
            r == owns(self.jobs()[i as int], idx),
    {
        proof {
            self.lemma_jobs_view();
        }
        let job = &self.jobs[i];
        assert(job.tickets@ == self.jobs()[i as int].tickets);
        let mut k: usize = 0;
        while k < job.tickets.len()
            invariant
                k <= job.tickets@.len(),
                job.tickets@ == self.jobs()[i as int].tickets,
                forall|m: int| 0 <= m < k ==> (#[trigger] job.tickets@[m]).owner.idx != idx,
            decreases job.tickets@.len() - k,
        {
            if job.tickets[k].owner.idx == idx {
                assert(self.jobs()[i as int].tickets[k as int].owner.idx == idx);
                return true;
            }
            k += 1;
        }
        false
    }

    /// Module `idx` is about to act (the input barrier): its pictures still to be taken go
    /// before every other, whatever the budget. True when it has any.
    pub fn expedite(&mut self, idx: usize) -> (any: bool)
        requires
            old(self).wf(),
        ensures
            final(self).wf(),
            final(self).jobs() == expedited(old(self).jobs(), idx),
            any == exists|i: int|
                0 <= i < old(self).jobs().len() && waiting(#[trigger] old(self).jobs()[i]) && owns(
                    old(self).jobs()[i],
                    idx,
                ),
            final(self).next_id() == old(self).next_id(),
            forall|p: Priority| final(self).last_served(p) == old(self).last_served(p),
    {
        let ghost before = self.jobs();
        let mut any = false;
        let mut i: usize = 0;
        proof {
            self.lemma_jobs_view();
        }
        while i < self.jobs.len()
            invariant
                i <= self.jobs@.len(),
                self.jobs@.len() == before.len(),
                self.next_job == old(self).next_job,
                self.last_interactive == old(self).last_interactive,
                self.last_background == old(self).last_background,
                forall|k: int| 0 <= k < i ==> #[trigger] self.jobs@[k].view() == expedited(before, idx)[k],
                forall|k: int| i <= k < before.len() ==> #[trigger] self.jobs@[k].view() == before[k],
                any == exists|k: int|
                    0 <= k < i && waiting(#[trigger] before[k]) && owns(before[k], idx),
            decreases self.jobs@.len() - i,
        {
            proof {
                self.lemma_jobs_view();
            }
            if self.jobs[i].stage == Stage::AwaitCapture && self.job_owned_by(i, idx) {
                self.jobs[i].urgent = true;
                any = true;
            }
            proof {
                self.lemma_jobs_view();
            }
            i += 1;
        }
        proof {
            self.lemma_jobs_view();
            assert(self.jobs() =~= expedited(before, idx));
        }
        any
    }
}


/// Whether module `idx` has a picture still to be taken.
pub open spec fn holds_barrier<S, P>(jobs: Seq<JobView<S, P>>, idx: usize) -> bool {
    exists|i: int|
        0 <= i < jobs.len() && ((#[trigger] jobs[i]).stage == Stage::AwaitCapture || jobs[i].stage
            == Stage::Capturing) && owns(jobs[i], idx)
}

impl<S: Clone + SameRequest, P> Scheduler<S, P> {
    /// Whether module `idx` has no picture still to be taken: what the input barrier waits for.
    pub fn barrier_clear(&self, idx: usize) -> (r: bool)
        ensures
            r == !holds_barrier(self.jobs(), idx),
    {
        proof {
            self.lemma_jobs_view();
        }
        let mut i: usize = 0;
        while i < self.jobs.len()
            invariant
                i <= self.jobs@.len(),
                forall|k: int|
                    0 <= k < i ==> !(((#[trigger] self.jobs()[k]).stage == Stage::AwaitCapture
                        || self.jobs()[k].stage == Stage::Capturing) && owns(self.jobs()[k], idx)),
            decreases self.jobs@.len() - i,
        {
            proof {
                self.lemma_jobs_view();
            }
            let st = self.jobs[i].stage;
            if (st == Stage::AwaitCapture || st == Stage::Capturing) && self.job_owned_by(i, idx) {
                return false;
            }
            i += 1;
        }
        true
    }

    /// Whether interactive work is waiting behind the recognition that is running.
    pub fn interactive_waiting(&self) -> (r: bool)
        ensures
            r == exists|i: int|
                0 <= i < self.jobs().len() && (#[trigger] self.jobs()[i]).stage
                    != Stage::Recognising && self.jobs()[i].prio == Priority::Interactive,
    {
        proof {
            self.lemma_jobs_view();
        }
        let mut i: usize = 0;
        while i < self.jobs.len()
            invariant
                i <= self.jobs@.len(),
                forall|k: int|
                    0 <= k < i ==> !((#[trigger] self.jobs()[k]).stage != Stage::Recognising
                        && self.jobs()[k].prio == Priority::Interactive),
            decreases self.jobs@.len() - i,
        {
            proof {
                self.lemma_jobs_view();
            }
            if self.jobs[i].stage != Stage::Recognising && self.jobs[i].prio == Priority::Interactive {
                assert(self.jobs()[i as int].stage != Stage::Recognising);
                return true;
            }
            i += 1;
        }
        false
    }

    /// Bytes of pixels captured and not yet recognised.
    pub fn captured_bytes(&self) -> (n: usize)
        requires
            captured_sum(self.jobs()) <= usize::MAX,
        ensures
            n == captured_sum(self.jobs()),
    {
        proof {
            self.lemma_jobs_view();
        }
        let ghost jobs = self.jobs();
        let mut n: usize = 0;
        let mut i: usize = 0;
        while i < self.jobs.len()
            invariant
                i <= self.jobs@.len(),
                jobs == self.jobs(),
                jobs.len() == self.jobs@.len(),
                captured_sum(jobs) <= usize::MAX,
                n == captured_sum(jobs.take(i as int)),
            decreases self.jobs@.len() - i,
        {
            proof {
                self.lemma_jobs_view();
                assert(jobs.take(i + 1).drop_last() =~= jobs.take(i as int));
                lemma_captured_sum_prefix(jobs, i + 1);
            }
            if self.jobs[i].stage == Stage::Captured {
                n = n + self.jobs[i].bytes;
            }
            i += 1;
        }
        proof {
            assert(jobs.take(i as int) =~= jobs);
        }
        n
    }

    /// The picture for `id` is taken. `false` when nobody waits for it any more, and the caller
    /// drops the pixels.
    #[verifier::spinoff_prover]
    pub fn captured(&mut self, id: JobId, pixels: P, bytes: usize, now: u64) -> (kept: bool)
        requires
            old(self).wf(),
        ensures
            final(self).wf(),
            final(self).next_id() == old(self).next_id(),
            forall|p: Priority| final(self).last_served(p) == old(self).last_served(p),
            match first_where(old(self).jobs(), capturing_id(id)) {
                Some(i) => kept && final(self).jobs() == old(self).jobs().update(
                    i,
                    JobView {
                        stage: Stage::Captured,
                        pixels: Some(pixels),
                        bytes,
                        captured_at: Some(now),
                        ..old(self).jobs()[i]
                    },
                ),
                None => !kept && final(self).jobs() == old(self).jobs(),
            },
    {
        let ghost p = capturing_id::<S, P>(id);
        proof {
            lemma_first_where(self.jobs(), p);
            self.lemma_jobs_view();
        }
        let mut i: usize = 0;
        while i < self.jobs.len()
            invariant
                i <= self.jobs@.len(),
                self == old(self),
                self.wf(),
                p == capturing_id::<S, P>(id),
                forall|k: int| 0 <= k < i ==> !p(#[trigger] self.jobs()[k]),
            decreases self.jobs@.len() - i,
        {
            proof {
                self.lemma_jobs_view();
            }
            if self.jobs[i].id == id && self.jobs[i].stage == Stage::Capturing {
                proof {
                    lemma_first_where(self.jobs(), p);
                }
                let ghost before = self.jobs();
                self.jobs[i].stage = Stage::Captured;
                self.jobs[i].pixels = Some(pixels);
                self.jobs[i].bytes = bytes;
                self.jobs[i].captured_at = Some(now);
                proof {
                    self.lemma_jobs_view();
                    assert(self.jobs() =~= before.update(
                        i as int,
                        JobView {
                            stage: Stage::Captured,
                            pixels: Some(pixels),
                            bytes,
                            captured_at: Some(now),
                            ..before[i as int]
                        },
                    ));
                    assert(before == old(self).jobs());
                    assert forall|k: int| 0 <= k < self.jobs().len() implies job_ok(
                        #[trigger] self.jobs()[k],
                    ) by {
                        assert(job_ok(before[k]));
                    }
                    assert forall|k: int| 0 <= k < self.jobs().len() implies (#[trigger] self.jobs()[k]).id
                        < self.next_job by {
                        assert(before[k].id < self.next_job);
                    }
                    assert forall|a: int, b: int| 0 <= a < b < self.jobs().len() implies (#[trigger] self.jobs()[a]).id
                        != (#[trigger] self.jobs()[b]).id by {
                        assert(before[a].id != before[b].id);
                    }
                }
                return true;
            }
            i += 1;
        }
        false
    }

    /// `id` is recognised: its tickets, to be answered. Empty when every caller went away.
    pub fn finished(&mut self, id: JobId) -> (tickets: Vec<Ticket>)
        requires
            old(self).wf(),
        ensures
            final(self).wf(),
            final(self).next_id() == old(self).next_id(),
            forall|p: Priority| final(self).last_served(p) == old(self).last_served(p),
            match first_where(old(self).jobs(), with_id(id)) {
                Some(i) => final(self).jobs() == old(self).jobs().remove(i) && tickets@
                    == old(self).jobs()[i].tickets,
                None => final(self).jobs() == old(self).jobs() && tickets@.len() == 0,
            },
    {
        match self.find(id) {
            Some(i) => {
                let ghost before = self.jobs();
                proof {
                    self.lemma_jobs_view();
                }
                let job = self.jobs.remove(i);
                proof {
                    self.lemma_jobs_view();
                    assert(self.jobs() =~= before.remove(i as int));
                }
                job.tickets
            },
            None => Vec::new(),
        }
    }
}

/// Summing a prefix one job further adds that job's bytes when it is captured.
proof fn lemma_captured_sum_prefix<S, P>(jobs: Seq<JobView<S, P>>, n: int)
    requires
        0 < n <= jobs.len(),
    ensures
        captured_sum(jobs.take(n)) == captured_sum(jobs.take(n - 1)) + if jobs[n - 1].stage
            == Stage::Captured {
            jobs[n - 1].bytes as int
        } else {
            0
        },
        captured_sum(jobs.take(n)) <= captured_sum(jobs),
{
    assert(jobs.take(n).drop_last() =~= jobs.take(n - 1));
    lemma_captured_sum_mono(jobs, n);
}

proof fn lemma_captured_sum_mono<S, P>(jobs: Seq<JobView<S, P>>, n: int)
    requires
        0 <= n <= jobs.len(),
    ensures
        captured_sum(jobs.take(n)) <= captured_sum(jobs),
    decreases jobs.len() - n,
{
    if n < jobs.len() {
        lemma_captured_sum_mono(jobs, n + 1);
        assert(jobs.take(n + 1).drop_last() =~= jobs.take(n));
    } else {
        assert(jobs.take(n) =~= jobs);
    }
}


/// A removal as the queue carries it out.
enum Rule {
    Superseded { owner: Owner, key: String },
    Evicted { id: TicketId },
    Cancelled { idx: usize },
}

impl Rule {
    spec fn view(&self) -> Removal {
        match self {
            Rule::Superseded { owner, key } => Removal::Superseded { owner: *owner, key: key@ },
            Rule::Evicted { id } => Removal::Evicted { id: *id },
            Rule::Cancelled { idx } => Removal::Cancelled { idx: *idx },
        }
    }

    fn hits(&self, stage: Stage, t: &Ticket) -> (r: bool)
        ensures
            r == removes(self.view(), stage, *t),
    {
        match self {
            Rule::Superseded { owner, key } => {
                if stage == Stage::Recognising || t.owner != *owner {
                    return false;
                }
                match &t.key {
                    Some(k) => *k == *key,
                    None => false,
                }
            },
            Rule::Evicted { id } => t.id == *id,
            Rule::Cancelled { idx } => t.owner.idx == *idx,
        }
    }
}

/// The priority `ts` give their job.
fn tickets_priority(ts: &Vec<Ticket>) -> (p: Priority)
    ensures
        p == tickets_prio(ts@),
{
    let mut i: usize = 0;
    while i < ts.len()
        invariant
            i <= ts@.len(),
            forall|k: int| 0 <= k < i ==> (#[trigger] ts@[k]).prio != Priority::Interactive,
        decreases ts@.len() - i,
    {
        if ts[i].prio == Priority::Interactive {
            return Priority::Interactive;
        }
        i += 1;
    }
    Priority::Background
}

/// What settling keeps true: ids stay distinct and below `next`, and every kept job is `job_ok`.
proof fn lemma_settle<S, P>(s: Seq<JobView<S, P>>, next: JobId)
    requires
        forall|k: int| 0 <= k < s.len() ==> (#[trigger] s[k]).id < next,
        forall|a: int, b: int| 0 <= a < b < s.len() ==> (#[trigger] s[a]).id != (#[trigger] s[b]).id,
        forall|k: int| 0 <= k < s.len() ==> ((#[trigger] s[k]).pixels is Some <==> s[k].stage == Stage::Captured),
    ensures
        settle(s).len() <= s.len(),
        forall|i: int| 0 <= i < settle(s).len() ==> exists|k: int| 0 <= k < s.len() && (#[trigger] settle(s)[i]).id == (#[trigger] s[k]).id,
        forall|i: int| 0 <= i < settle(s).len() ==> (#[trigger] settle(s)[i]).id < next,
        forall|a: int, b: int| 0 <= a < b < settle(s).len() ==> (#[trigger] settle(s)[a]).id != (#[trigger] settle(s)[b]).id,
        forall|i: int| 0 <= i < settle(s).len() ==> job_ok(#[trigger] settle(s)[i]),
    decreases s.len(),
{
    if s.len() > 0 {
        let d = s.drop_last();
        assert forall|k: int| 0 <= k < d.len() implies (#[trigger] d[k]).id < next by {
            assert(d[k] == s[k]);
        }
        assert forall|a: int, b: int| 0 <= a < b < d.len() implies (#[trigger] d[a]).id != (#[trigger] d[b]).id by {
            assert(d[a] == s[a] && d[b] == s[b]);
        }
        assert forall|k: int| 0 <= k < d.len() implies ((#[trigger] d[k]).pixels is Some <==> d[k].stage == Stage::Captured) by {
            assert(d[k] == s[k]);
        }
        lemma_settle(d, next);
        let rest = settle(d);
        let j = s.last();
        assert forall|i: int| 0 <= i < rest.len() implies (#[trigger] rest[i]).id != j.id by {
            let k = choose|k: int| 0 <= k < d.len() && rest[i].id == (#[trigger] d[k]).id;
            assert(d[k] == s[k]);
        }
        if j.stage == Stage::Recognising || j.tickets.len() > 0 {
            let x = if j.stage == Stage::Recognising { j } else { JobView { prio: tickets_prio(j.tickets), ..j } };
            assert(settle(s) == rest.push(x));
            assert forall|i: int| 0 <= i < settle(s).len() implies exists|k: int| 0 <= k < s.len() && (#[trigger] settle(s)[i]).id == (#[trigger] s[k]).id by {
                if i < rest.len() {
                    let k = choose|k: int| 0 <= k < d.len() && rest[i].id == (#[trigger] d[k]).id;
                    assert(d[k] == s[k]);
                    assert(settle(s)[i] == rest[i]);
                } else {
                    assert(settle(s)[i].id == s[s.len() - 1].id);
                }
            }
            assert forall|a: int, b: int| 0 <= a < b < settle(s).len() implies (#[trigger] settle(s)[a]).id != (#[trigger] settle(s)[b]).id by {
                if b < rest.len() {
                    assert(settle(s)[a] == rest[a] && settle(s)[b] == rest[b]);
                } else {
                    assert(settle(s)[a] == rest[a]);
                }
            }
            assert forall|i: int| 0 <= i < settle(s).len() implies job_ok(#[trigger] settle(s)[i]) by {
                if i < rest.len() {
                    assert(settle(s)[i] == rest[i]);
                }
            }
        } else {
            assert(settle(s) == rest);
        }
    }
}


/// One ticket further into a job's tickets.
proof fn lemma_kept_step(ts: Seq<Ticket>, stage: Stage, r: Removal, k: int)
    requires
        0 <= k < ts.len(),
    ensures
        kept(ts.take(k + 1), stage, r) == if removes(r, stage, ts[k]) {
            kept(ts.take(k), stage, r)
        } else {
            kept(ts.take(k), stage, r).push(ts[k])
        },
        taken(ts.take(k + 1), stage, r) == if removes(r, stage, ts[k]) {
            taken(ts.take(k), stage, r).push(ts[k].id)
        } else {
            taken(ts.take(k), stage, r)
        },
{
    assert(ts.take(k + 1).drop_last() =~= ts.take(k));
}

impl<S: Clone + SameRequest, P> Scheduler<S, P> {
    /// Takes the tickets `rule` names off their jobs; their ids, job by job.
    fn strip(&mut self, rule: &Rule) -> (ids: Vec<TicketId>)
        ensures
            final(self).jobs() == strip_all(old(self).jobs(), rule.view()),
            ids@ == taken_all(old(self).jobs(), rule.view()),
            final(self).next_job == old(self).next_job,
            final(self).last_interactive == old(self).last_interactive,
            final(self).last_background == old(self).last_background,
    {
        let ghost before = self.jobs();
        proof {
            self.lemma_jobs_view();
        }
        let mut ids: Vec<TicketId> = Vec::new();
        let mut i: usize = 0;
        while i < self.jobs.len()
            invariant
                i <= self.jobs@.len(),
                self.jobs@.len() == before.len(),
                self.next_job == old(self).next_job,
                self.last_interactive == old(self).last_interactive,
                self.last_background == old(self).last_background,
                forall|k: int| 0 <= k < i ==> #[trigger] self.jobs@[k].view() == strip_job(before[k], rule.view()),
                forall|k: int| i <= k < before.len() ==> #[trigger] self.jobs@[k].view() == before[k],
                ids@ == taken_all(before.take(i as int), rule.view()),
            decreases self.jobs@.len() - i,
        {
            let mut job = self.jobs.remove(i);
            let ghost orig = job.tickets@;
            assert(job.view() == before[i as int]);
            let mut rest: Vec<Ticket> = Vec::new();
            std::mem::swap(&mut rest, &mut job.tickets);
            let stage = job.stage;
            let n = rest.len();
            let mut keep: Vec<Ticket> = Vec::new();
            let ghost ids0 = ids@;
            let mut k: usize = 0;
            while rest.len() > 0
                invariant
                    k <= orig.len(),
                    orig.len() == n,
                    rest@ == orig.subrange(k as int, orig.len() as int),
                    keep@ == kept(orig.take(k as int), stage, rule.view()),
                    ids@ == ids0 + taken(orig.take(k as int), stage, rule.view()),
                decreases rest@.len(),
            {
                let t = rest.remove(0);
                proof {
                    lemma_kept_step(orig, stage, rule.view(), k as int);
                }
                if rule.hits(stage, &t) {
                    ids.push(t.id);
                } else {
                    keep.push(t);
                }
                proof {
                    assert(ids@ == ids0 + taken(orig.take(k + 1), stage, rule.view()));
                }
                k += 1;
            }
            job.tickets = keep;
            proof {
                assert(orig.take(k as int) =~= orig);
                assert(before.take(i + 1).drop_last() =~= before.take(i as int));
                assert(job.view() == strip_job(before[i as int], rule.view()));
            }
            self.jobs.insert(i, job);
            i += 1;
        }
        proof {
            self.lemma_jobs_view();
            assert(before.take(i as int) =~= before);
            assert(self.jobs() =~= strip_all(before, rule.view()));
        }
        ids
    }

    /// After tickets were taken off their jobs: a job keeps the priority of the tickets still
    /// on it, and a job nobody waits for is dropped, except the one being recognised.
    fn tickets_removed(&mut self)
        ensures
            final(self).jobs() == settle(old(self).jobs()),
            final(self).next_job == old(self).next_job,
            final(self).last_interactive == old(self).last_interactive,
            final(self).last_background == old(self).last_background,
    {
        let ghost before = self.jobs();
        proof {
            self.lemma_jobs_view();
        }
        let mut rest: Vec<Job<S, P>> = Vec::new();
        std::mem::swap(&mut rest, &mut self.jobs);
        let ghost orig = rest@;
        let n = rest.len();
        let mut k: usize = 0;
        while rest.len() > 0
            invariant
                k <= before.len(),
                orig.len() == before.len(),
                orig.len() == n,
                forall|m: int| 0 <= m < orig.len() ==> #[trigger] orig[m].view() == before[m],
                rest@ == orig.subrange(k as int, orig.len() as int),
                self.jobs() == settle(before.take(k as int)),
                self.next_job == old(self).next_job,
                self.last_interactive == old(self).last_interactive,
                self.last_background == old(self).last_background,
            decreases rest@.len(),
        {
            let mut j = rest.remove(0);
            assert(j.view() == before[k as int]);
            proof {
                assert(before.take(k + 1).drop_last() =~= before.take(k as int));
                self.lemma_jobs_view();
            }
            let ghost prev = self.jobs();
            if j.stage == Stage::Recognising {
                self.jobs.push(j);
                proof {
                    self.lemma_jobs_view();
                    assert(self.jobs() =~= prev.push(before[k as int]));
                }
            } else if j.tickets.len() == 0 {
            } else {
                j.prio = tickets_priority(&j.tickets);
                let ghost x = j.view();
                self.jobs.push(j);
                proof {
                    self.lemma_jobs_view();
                    assert(self.jobs() =~= prev.push(x));
                }
            }
            k += 1;
        }
        proof {
            assert(before.take(k as int) =~= before);
        }
    }

    /// Carries out `rule`, then settles the jobs: what `remove_model` says.
    fn remove_where(&mut self, rule: &Rule) -> (ids: Vec<TicketId>)
        requires
            old(self).wf(),
        ensures
            final(self).wf(),
            (final(self).jobs(), ids@) == remove_model(old(self).jobs(), rule.view()),
            final(self).next_job == old(self).next_job,
            final(self).last_interactive == old(self).last_interactive,
            final(self).last_background == old(self).last_background,
    {
        let ids = self.strip(rule);
        let ghost mid = self.jobs();
        proof {
            let old_jobs = old(self).jobs();
            assert forall|k: int| 0 <= k < mid.len() implies (#[trigger] mid[k]).id < self.next_job by {
                assert(old_jobs[k].id < self.next_job);
            }
            assert forall|a: int, b: int| 0 <= a < b < mid.len() implies (#[trigger] mid[a]).id != (#[trigger] mid[b]).id by {
                assert(old_jobs[a].id != old_jobs[b].id);
            }
            assert forall|k: int| 0 <= k < mid.len() implies ((#[trigger] mid[k]).pixels is Some <==> mid[k].stage == Stage::Captured) by {
                assert(job_ok(old_jobs[k]));
            }
            lemma_settle(mid, self.next_job);
        }
        self.tickets_removed();
        ids
    }
}


impl<S: Clone + SameRequest, P> Scheduler<S, P> {
    /// Latest wins per key: `owner`'s tickets with `key` whose job has not started recognising
    /// are taken off, to be answered stale; a job left with no ticket is dropped.
    #[verifier::spinoff_prover]
    pub fn supersede(&mut self, owner: Owner, key: &str) -> (stale: Vec<TicketId>)
        requires
            old(self).wf(),
        ensures
            final(self).wf(),
            (final(self).jobs(), stale@) == remove_model(
                old(self).jobs(),
                Removal::Superseded { owner, key: key@ },
            ),
            final(self).next_id() == old(self).next_id(),
            forall|p: Priority| final(self).last_served(p) == old(self).last_served(p),
    {
        let rule = Rule::Superseded { owner, key: <String as StringExecFns>::from_str(key) };
        self.remove_where(&rule)
    }

    /// Every ticket of module `idx`, in every VM generation, taken off its job: the module was
    /// disabled, reloaded or unloaded. Jobs another module joined stay for it.
    #[verifier::spinoff_prover]
    pub fn cancel_owner(&mut self, idx: usize) -> (gone: Vec<TicketId>)
        requires
            old(self).wf(),
        ensures
            final(self).wf(),
            (final(self).jobs(), gone@) == remove_model(old(self).jobs(), Removal::Cancelled { idx }),
            final(self).next_id() == old(self).next_id(),
            forall|p: Priority| final(self).last_served(p) == old(self).last_served(p),
    {
        let rule = Rule::Cancelled { idx };
        self.remove_where(&rule)
    }
}


/// Which pass of `take_capture` a scan makes.
enum Pass {
    Urgent,
    Aged,
    Interactive,
    Any,
}

spec fn pass_pred<S, P>(pass: Pass, now: u64) -> spec_fn(JobView<S, P>) -> bool {
    match pass {
        Pass::Urgent => urgent_waiting(),
        Pass::Aged => aged_waiting(now),
        Pass::Interactive => interactive_waiting_job(),
        Pass::Any => any_waiting(),
    }
}

fn is_aged(now: u64, asked: u64) -> (r: bool)
    ensures
        r == aged(now, asked),
{
    now >= asked && now - asked >= AGING_MS
}

impl<S: Clone + SameRequest, P> Scheduler<S, P> {
    /// The first job `pass` accepts.
    fn scan(&self, pass: Pass, now: u64) -> (r: Option<usize>)
        ensures
            match first_where(self.jobs(), pass_pred(pass, now)) {
                Some(i) => r == Some(i as usize) && 0 <= i < self.jobs().len(),
                None => r is None,
            },
    {
        let ghost p = pass_pred::<S, P>(pass, now);
        proof {
            lemma_first_where(self.jobs(), p);
            self.lemma_jobs_view();
        }
        let mut i: usize = 0;
        while i < self.jobs.len()
            invariant
                i <= self.jobs@.len(),
                p == pass_pred::<S, P>(pass, now),
                forall|k: int| 0 <= k < i ==> !p(#[trigger] self.jobs()[k]),
            decreases self.jobs@.len() - i,
        {
            proof {
                self.lemma_jobs_view();
            }
            let j = &self.jobs[i];
            let hit = j.stage == Stage::AwaitCapture && match pass {
                Pass::Urgent => j.urgent,
                Pass::Aged => j.prio == Priority::Background && is_aged(now, j.asked),
                Pass::Interactive => j.prio == Priority::Interactive,
                Pass::Any => true,
            };
            assert(j.view() == self.jobs()[i as int]);
            if hit {
                assert(p(self.jobs()[i as int]));
                proof {
                    lemma_first_where(self.jobs(), p);
                }
                return Some(i);
            }
            assert(!p(self.jobs()[i as int]));
            i += 1;
        }
        None
    }

    /// The index `capture_pick` names.
    fn pick_capture(&self, over_budget: bool, now: u64) -> (r: Option<usize>)
        ensures
            match capture_pick(self.jobs(), over_budget, now) {
                Some(i) => r == Some(i as usize),
                None => r is None,
            },
            r matches Some(k) ==> k < self.jobs().len() && capture_pick(self.jobs(), over_budget, now) == Some(k as int),
    {
        proof {
            lemma_first_where(self.jobs(), urgent_waiting());
            lemma_first_where(self.jobs(), aged_waiting(now));
            lemma_first_where(self.jobs(), interactive_waiting_job());
            lemma_first_where(self.jobs(), any_waiting());
            self.lemma_jobs_view();
        }
        let _n = self.jobs.len();
        if let Some(i) = self.scan(Pass::Urgent, now) {
            return Some(i);
        }
        if !over_budget {
            if let Some(i) = self.scan(Pass::Aged, now) {
                return Some(i);
            }
        }
        if let Some(i) = self.scan(Pass::Interactive, now) {
            return Some(i);
        }
        if !over_budget {
            return self.scan(Pass::Any, now);
        }
        None
    }

    /// The next job to photograph (see `capture_pick`), now being captured: its id and a
    /// clone of its description.
    #[verifier::spinoff_prover]
    pub fn take_capture(&mut self, over_budget: bool, now: u64) -> (r: Option<(JobId, S)>)
        requires
            old(self).wf(),
        ensures
            final(self).wf(),
            final(self).next_id() == old(self).next_id(),
            forall|p: Priority| final(self).last_served(p) == old(self).last_served(p),
            match capture_pick(old(self).jobs(), over_budget, now) {
                Some(i) => r matches Some((id, spec)) && id == old(self).jobs()[i].id && cloned(
                    old(self).jobs()[i].spec,
                    spec,
                ) && final(self).jobs() == old(self).jobs().update(
                    i,
                    JobView {
                        stage: Stage::Capturing,
                        capture_started: Some(now),
                        ..old(self).jobs()[i]
                    },
                ),
                None => r is None && final(self).jobs() == old(self).jobs(),
            },
    {
        let pick = self.pick_capture(over_budget, now);
        match pick {
            None => None,
            Some(i) => {
                let ghost before = self.jobs();
                proof {
                    self.lemma_jobs_view();
                    lemma_first_where(before, urgent_waiting());
                    lemma_first_where(before, aged_waiting(now));
                    lemma_first_where(before, interactive_waiting_job());
                    lemma_first_where(before, any_waiting());
                }
                self.jobs[i].stage = Stage::Capturing;
                self.jobs[i].capture_started = Some(now);
                let id = self.jobs[i].id;
                let spec = self.jobs[i].spec.clone();
                proof {
                    self.lemma_jobs_view();
                    let x = JobView { stage: Stage::Capturing, capture_started: Some(now), ..before[i as int] };
                    assert(self.jobs() =~= before.update(i as int, x));
                    assert(waiting(before[i as int]));
                    assert forall|k: int| 0 <= k < self.jobs().len() implies job_ok(#[trigger] self.jobs()[k]) by {
                        assert(job_ok(before[k]));
                    }
                    assert forall|k: int| 0 <= k < self.jobs().len() implies (#[trigger] self.jobs()[k]).id
                        < self.next_job by {
                        assert(before[k].id < self.next_job);
                    }
                    assert forall|a: int, b: int| 0 <= a < b < self.jobs().len() implies (#[trigger] self.jobs()[a]).id
                        != (#[trigger] self.jobs()[b]).id by {
                        assert(before[a].id != before[b].id);
                    }
                }
                Some((id, spec))
            },
        }
    }

    /// The class and time asked of the job `take_capture` would photograph next, for weighing
    /// it against the snapshot lane.
    pub fn peek_capture(&self, over_budget: bool, now: u64) -> (r: Option<Cand>)
        ensures
            r == match capture_pick(self.jobs(), over_budget, now) {
                Some(i) => Some(
                    Cand { class: job_class(self.jobs()[i], now), due: self.jobs()[i].asked },
                ),
                None => None,
            },
    {
        match self.pick_capture(over_budget, now) {
            None => None,
            Some(i) => {
                proof {
                    self.lemma_jobs_view();
                    lemma_first_where(self.jobs(), urgent_waiting());
                    lemma_first_where(self.jobs(), aged_waiting(now));
                    lemma_first_where(self.jobs(), interactive_waiting_job());
                    lemma_first_where(self.jobs(), any_waiting());
                }
                let j = &self.jobs[i];
                assert(j.view() == self.jobs()[i as int]);
                let class = if j.urgent {
                    Class::Urgent
                } else if j.prio == Priority::Interactive {
                    Class::Interactive
                } else if is_aged(now, j.asked) {
                    Class::Aged
                } else {
                    Class::Background
                };
                assert(capture_pick(self.jobs(), over_budget, now) == Some(i as int));
                assert(class == job_class(self.jobs()[i as int], now));
                Some(Cand { class, due: j.asked })
            },
        }
    }
}


pub open spec fn lead_is<S, P>(want: Priority, l: usize) -> spec_fn(JobView<S, P>) -> bool {
    |j: JobView<S, P>| ready_in(j, want) && lead(j) == l
}

/// What `next_recognise` hands the recogniser for job `j`.
pub open spec fn started_from<S: Clone, P>(j: JobView<S, P>, st: Started<S, P>) -> bool {
    &&& st.id == j.id
    &&& cloned(j.spec, st.spec)
    &&& j.pixels == Some(st.pixels)
    &&& st.prio == j.prio
    &&& st.asked == j.asked
    &&& st.capture_started == match j.capture_started {
        Some(t) => t,
        None => j.asked,
    }
    &&& st.captured_at == match j.captured_at {
        Some(t) => t,
        None => j.asked,
    }
}

proof fn lemma_min_lead_step<S, P>(jobs: Seq<JobView<S, P>>, want: Priority, floor: int, n: int)
    requires
        0 <= n < jobs.len(),
    ensures
        min_lead_above(jobs.take(n + 1), want, floor) == {
            let rest = min_lead_above(jobs.take(n), want, floor);
            let j = jobs[n];
            if ready_in(j, want) && lead(j) > floor {
                match rest {
                    Some(m) => if lead(j) < m {
                        Some(lead(j))
                    } else {
                        Some(m)
                    },
                    None => Some(lead(j)),
                }
            } else {
                rest
            }
        },
{
    assert(jobs.take(n + 1).drop_last() =~= jobs.take(n));
}

/// The smallest lead above `floor` is the lead of some ready job, and no ready job's lead above
/// `floor` is smaller.
proof fn lemma_min_lead<S, P>(jobs: Seq<JobView<S, P>>, want: Priority, floor: int)
    ensures
        match min_lead_above(jobs, want, floor) {
            Some(m) => m > floor && (exists|k: int| 0 <= k < jobs.len() && ready_in(#[trigger] jobs[k], want) && lead(jobs[k]) == m)
                && forall|k: int| 0 <= k < jobs.len() && ready_in(#[trigger] jobs[k], want) && lead(jobs[k]) > floor ==> m <= lead(jobs[k]),
            None => forall|k: int| 0 <= k < jobs.len() && ready_in(#[trigger] jobs[k], want) ==> lead(jobs[k]) <= floor,
        },
    decreases jobs.len(),
{
    if jobs.len() > 0 {
        let d = jobs.drop_last();
        lemma_min_lead(d, want, floor);
        let last = jobs.len() - 1;
        let j = jobs[last];
        assert(j == jobs.last());
        assert forall|k: int| 0 <= k < d.len() implies #[trigger] d[k] == jobs[k] by {}
        let rest = min_lead_above(d, want, floor);
        let q = ready_in(j, want) && lead(j) > floor;
        if q {
            match rest {
                Some(m) => {
                    let k0 = choose|k: int| 0 <= k < d.len() && ready_in(#[trigger] d[k], want) && lead(d[k]) == m;
                    assert(jobs[k0] == d[k0]);
                    if lead(j) < m {
                        assert(min_lead_above(jobs, want, floor) == Some(lead(j)));
                        assert(ready_in(jobs[last], want) && lead(jobs[last]) == lead(j));
                    } else {
                        assert(min_lead_above(jobs, want, floor) == Some(m));
                        assert(ready_in(jobs[k0], want) && lead(jobs[k0]) == m);
                    }
                    assert forall|k: int| 0 <= k < jobs.len() && ready_in(#[trigger] jobs[k], want) && lead(jobs[k]) > floor implies min_lead_above(jobs, want, floor).unwrap() <= lead(jobs[k]) by {
                        if k < last {
                            assert(d[k] == jobs[k]);
                        }
                    }
                },
                None => {
                    assert(min_lead_above(jobs, want, floor) == Some(lead(j)));
                    assert(ready_in(jobs[last], want) && lead(jobs[last]) == lead(j));
                    assert forall|k: int| 0 <= k < jobs.len() && ready_in(#[trigger] jobs[k], want) && lead(jobs[k]) > floor implies lead(j) <= lead(jobs[k]) by {
                        if k < last {
                            assert(d[k] == jobs[k]);
                        }
                    }
                },
            }
        } else {
            assert(min_lead_above(jobs, want, floor) == rest);
            match rest {
                Some(m) => {
                    let k0 = choose|k: int| 0 <= k < d.len() && ready_in(#[trigger] d[k], want) && lead(d[k]) == m;
                    assert(jobs[k0] == d[k0]);
                    assert(ready_in(jobs[k0], want) && lead(jobs[k0]) == m);
                    assert forall|k: int| 0 <= k < jobs.len() && ready_in(#[trigger] jobs[k], want) && lead(jobs[k]) > floor implies m <= lead(jobs[k]) by {
                        if k < last {
                            assert(d[k] == jobs[k]);
                        }
                    }
                },
                None => {
                    assert forall|k: int| 0 <= k < jobs.len() && ready_in(#[trigger] jobs[k], want) implies lead(jobs[k]) <= floor by {
                        if k < last {
                            assert(d[k] == jobs[k]);
                        }
                    }
                },
            }
        }
    }
}

impl<S: Clone + SameRequest, P> Scheduler<S, P> {
    fn job_lead(&self, i: usize) -> (l: usize)
        requires
            i < self.jobs().len(),
        ensures
            l == lead(self.jobs()[i as int]),
    {
        proof {
            self.lemma_jobs_view();
        }
        if self.jobs[i].tickets.len() == 0 {
            usize::MAX
        } else {
            self.jobs[i].tickets[0].owner.idx
        }
    }

    /// Whether a captured job of priority `p` waits (and, with `need_aged`, has waited
    /// `AGING_MS`).
    fn any_ready_with(&self, p: Priority, need_aged: bool, now: u64) -> (r: bool)
        ensures
            r == exists|i: int|
                0 <= i < self.jobs().len() && ready_in(#[trigger] self.jobs()[i], p) && (need_aged
                    ==> aged(now, self.jobs()[i].asked)),
    {
        proof {
            self.lemma_jobs_view();
        }
        let mut i: usize = 0;
        while i < self.jobs.len()
            invariant
                i <= self.jobs@.len(),
                forall|k: int|
                    0 <= k < i ==> !(ready_in(#[trigger] self.jobs()[k], p) && (need_aged ==> aged(
                        now,
                        self.jobs()[k].asked,
                    ))),
            decreases self.jobs@.len() - i,
        {
            proof {
                self.lemma_jobs_view();
            }
            let j = &self.jobs[i];
            assert(j.view() == self.jobs()[i as int]);
            if j.stage == Stage::Captured && j.prio == p && (!need_aged || is_aged(now, j.asked)) {
                return true;
            }
            i += 1;
        }
        false
    }

    /// The first captured job of lane `want` whose lead is `l`.
    fn find_lead(&self, want: Priority, l: usize) -> (r: Option<usize>)
        ensures
            match first_where(self.jobs(), lead_is(want, l)) {
                Some(i) => r == Some(i as usize) && 0 <= i < self.jobs().len(),
                None => r is None,
            },
    {
        let ghost p = lead_is::<S, P>(want, l);
        proof {
            lemma_first_where(self.jobs(), p);
            self.lemma_jobs_view();
        }
        let mut i: usize = 0;
        while i < self.jobs.len()
            invariant
                i <= self.jobs@.len(),
                p == lead_is::<S, P>(want, l),
                forall|k: int| 0 <= k < i ==> !p(#[trigger] self.jobs()[k]),
            decreases self.jobs@.len() - i,
        {
            proof {
                self.lemma_jobs_view();
            }
            let li = self.job_lead(i);
            assert(self.jobs@[i as int].view() == self.jobs()[i as int]);
            if self.jobs[i].stage == Stage::Captured && self.jobs[i].prio == want && li == l {
                assert(p(self.jobs()[i as int]));
                proof {
                    lemma_first_where(self.jobs(), p);
                }
                return Some(i);
            }
            assert(!p(self.jobs()[i as int]));
            i += 1;
        }
        None
    }

    /// `min_lead_above(jobs, want, floor)`, with `None` for no floor.
    fn min_lead(&self, want: Priority, floor: Option<usize>) -> (r: Option<usize>)
        ensures
            r == min_lead_above(
                self.jobs(),
                want,
                match floor {
                    Some(f) => f as int,
                    None => -1,
                },
            ),
    {
        let ghost fl: int = match floor {
            Some(f) => f as int,
            None => -1,
        };
        proof {
            self.lemma_jobs_view();
        }
        let mut best: Option<usize> = None;
        let mut i: usize = 0;
        while i < self.jobs.len()
            invariant
                i <= self.jobs@.len(),
                fl == match floor {
                    Some(f) => f as int,
                    None => -1,
                },
                best == min_lead_above(self.jobs().take(i as int), want, fl),
            decreases self.jobs@.len() - i,
        {
            proof {
                self.lemma_jobs_view();
                lemma_min_lead_step(self.jobs(), want, fl, i as int);
            }
            let l = self.job_lead(i);
            let above = match floor {
                Some(f) => l > f,
                None => true,
            };
            if self.jobs[i].stage == Stage::Captured && self.jobs[i].prio == want && above {
                best = match best {
                    Some(m) => if l < m {
                        Some(l)
                    } else {
                        Some(m)
                    },
                    None => Some(l),
                };
            }
            i += 1;
        }
        proof {
            assert(self.jobs().take(i as int) =~= self.jobs());
        }
        best
    }

    /// The next job to recognise: interactive first, unless a captured background job has
    /// waited `AGING_MS`; the lane's VMs take turns (see `next_lead`). Its pixels leave the
    /// queue with it.
    #[verifier::spinoff_prover]
    #[verifier::rlimit(40)]
    pub fn next_recognise(&mut self, now: u64) -> (r: Option<Started<S, P>>)
        requires
            old(self).wf(),
        ensures
            final(self).wf(),
            final(self).next_id() == old(self).next_id(),
            ({
                let jobs = old(self).jobs();
                let want = lane_wanted(jobs, now);
                let other = if want == Priority::Interactive {
                    Priority::Background
                } else {
                    Priority::Interactive
                };
                if min_lead_above(jobs, want, -1) is None {
                    r is None && final(self).jobs() == jobs && forall|p: Priority|
                        final(self).last_served(p) == old(self).last_served(p)
                } else {
                    let nl = next_lead(jobs, want, old(self).last_served(want));
                    match first_where(jobs, lead_is(want, nl)) {
                        Some(i) => r matches Some(st) && started_from(jobs[i], st)
                            && final(self).jobs() == jobs.update(
                            i,
                            JobView {
                                stage: Stage::Recognising,
                                bytes: 0,
                                pixels: None,
                                ..jobs[i]
                            },
                        ) && final(self).last_served(want) == Some(nl) && final(self).last_served(
                            other,
                        ) == old(self).last_served(other),
                        None => false,
                    }
                }
            }),
    {
        let ghost jobs = self.jobs();
        let has_interactive = self.any_ready_with(Priority::Interactive, false, now);
        let has_background = self.any_ready_with(Priority::Background, false, now);
        let aged_bg = self.any_ready_with(Priority::Background, true, now);
        let want = if has_interactive && !(has_background && aged_bg) {
            Priority::Interactive
        } else {
            Priority::Background
        };
        assert(want == lane_wanted(jobs, now));
        let first = self.min_lead(want, None);
        if first.is_none() {
            return None;
        }
        let last = match want {
            Priority::Interactive => self.last_interactive,
            Priority::Background => self.last_background,
        };
        let nl = match last {
            Some(l) => match self.min_lead(want, Some(l)) {
                Some(m) => m,
                None => first.unwrap(),
            },
            None => first.unwrap(),
        };
        assert(nl == next_lead(jobs, want, self.last_served(want)));
        proof {
            self.lemma_jobs_view();
            lemma_min_lead(jobs, want, -1);
            match last {
                Some(l) => lemma_min_lead(jobs, want, l as int),
                None => {},
            }
            lemma_first_where(jobs, lead_is(want, nl));
        }
        let i = match self.find_lead(want, nl) {
            Some(i) => i,
            None => {
                // A job with the lead chosen is always there.
                proof {
                    assert(false);
                }
                return None;
            },
        };
        match want {
            Priority::Interactive => self.last_interactive = Some(nl),
            Priority::Background => self.last_background = Some(nl),
        }
        let ghost before = self.jobs();
        assert(job_ok(before[i as int]));
        let mut pixels: Option<P> = None;
        std::mem::swap(&mut pixels, &mut self.jobs[i].pixels);
        self.jobs[i].stage = Stage::Recognising;
        self.jobs[i].bytes = 0;
        let pixels = match pixels {
            Some(px) => px,
            None => {
                proof {
                    assert(false);
                }
                return None;
            },
        };
        let j = &self.jobs[i];
        let started = Started {
            id: j.id,
            spec: j.spec.clone(),
            pixels,
            prio: j.prio,
            asked: j.asked,
            capture_started: match j.capture_started {
                Some(t) => t,
                None => j.asked,
            },
            captured_at: match j.captured_at {
                Some(t) => t,
                None => j.asked,
            },
        };
        proof {
            self.lemma_jobs_view();
            let x = JobView { stage: Stage::Recognising, bytes: 0, pixels: None, ..before[i as int] };
            assert(self.jobs() =~= before.update(i as int, x));
            assert forall|k: int| 0 <= k < self.jobs().len() implies job_ok(#[trigger] self.jobs()[k]) by {
                assert(job_ok(before[k]));
            }
            assert forall|k: int| 0 <= k < self.jobs().len() implies (#[trigger] self.jobs()[k]).id
                < self.next_job by {
                assert(before[k].id < self.next_job);
            }
            assert forall|a: int, b: int| 0 <= a < b < self.jobs().len() implies (#[trigger] self.jobs()[a]).id
                != (#[trigger] self.jobs()[b]).id by {
                assert(before[a].id != before[b].id);
            }
        }
        Some(started)
    }
}


/// A submission's result in the contracts.
pub struct SubmitModel<S, P> {
    pub jobs: Seq<JobView<S, P>>,
    pub next: JobId,
    pub job: Option<JobId>,
    pub joined: bool,
    pub stale: Seq<TicketId>,
    pub evicted: Seq<TicketId>,
    pub refused: Option<Seq<char>>,
}

/// The job a ticket asking for `spec` starts.
pub open spec fn new_job<S, P>(id: JobId, spec: S, ticket: Ticket, now: u64) -> JobView<S, P> {
    JobView {
        id,
        spec,
        prio: ticket.prio,
        urgent: false,
        tickets: seq![ticket],
        stage: Stage::AwaitCapture,
        asked: now,
        capture_started: None,
        captured_at: None,
        pixels: None,
        bytes: 0,
    }
}

/// Once there is room for the ticket: it joins the same request not yet photographed, or
/// starts a job of its own while fewer than `TOTAL` are queued.
pub open spec fn place<S: SameRequest, P>(
    jobs: Seq<JobView<S, P>>,
    next: JobId,
    spec: S,
    ticket: Ticket,
    now: u64,
    stale: Seq<TicketId>,
    evicted: Seq<TicketId>,
) -> SubmitModel<S, P> {
    match join_index(jobs, spec) {
        Some(i) => SubmitModel {
            jobs: jobs.update(
                i,
                JobView {
                    prio: prio_max(jobs[i].prio, ticket.prio),
                    tickets: jobs[i].tickets.push(ticket),
                    ..jobs[i]
                },
            ),
            next,
            job: Some(jobs[i].id),
            joined: true,
            stale,
            evicted,
            refused: None,
        },
        None => if jobs.len() >= TOTAL {
            SubmitModel { jobs, next, job: None, joined: false, stale, evicted, refused: Some(ALL_FULL@) }
        } else {
            SubmitModel {
                jobs: jobs.push(new_job(next, spec, ticket, now)),
                next: (next + 1) as u64,
                job: Some(next),
                joined: false,
                stale,
                evicted,
                refused: None,
            }
        },
    }
}

/// What `submit` does: latest wins per key; room for the VM is made by evicting its oldest
/// unkeyed ticket that has not started, or the ticket is refused when every one has a key;
/// then the ticket is placed.
pub open spec fn submit_model<S: SameRequest, P>(
    jobs: Seq<JobView<S, P>>,
    next: JobId,
    spec: S,
    ticket: Ticket,
    now: u64,
) -> SubmitModel<S, P> {
    let after_key = match ticket.key {
        Some(k) => remove_model(jobs, Removal::Superseded { owner: ticket.owner, key: k@ }),
        None => (jobs, Seq::empty()),
    };
    let j1 = after_key.0;
    let stale = after_key.1;
    if owner_count(j1, ticket.owner) >= PER_OWNER {
        let victims = evictable(j1, ticket.owner);
        if victims.len() == 0 {
            SubmitModel { jobs: j1, next, job: None, joined: false, stale, evicted: Seq::empty(), refused: Some(TOO_MANY@) }
        } else {
            let v = seq_min(victims);
            place(remove_model(j1, Removal::Evicted { id: v }).0, next, spec, ticket, now, stale, seq![v])
        }
    } else {
        place(j1, next, spec, ticket, now, stale, Seq::empty())
    }
}

proof fn lemma_tickets_prio_push(ts: Seq<Ticket>, t: Ticket)
    ensures
        tickets_prio(ts.push(t)) == prio_max(tickets_prio(ts), t.prio),
{
    let s = ts.push(t);
    if tickets_prio(ts) == Priority::Interactive {
        let i = choose|i: int| 0 <= i < ts.len() && (#[trigger] ts[i]).prio == Priority::Interactive;
        assert(s[i] == ts[i]);
    }
    if t.prio == Priority::Interactive {
        assert(s[ts.len() as int] == t);
    }
    if tickets_prio(s) == Priority::Interactive {
        let i = choose|i: int| 0 <= i < s.len() && (#[trigger] s[i]).prio == Priority::Interactive;
        if i < ts.len() {
            assert(s[i] == ts[i]);
        }
    }
}

proof fn lemma_ticket_count_prefix(ts: Seq<Ticket>, o: Owner, k: int)
    requires
        0 <= k <= ts.len(),
    ensures
        ticket_count(ts.take(k), o) <= ticket_count(ts, o),
    decreases ts.len() - k,
{
    if k < ts.len() {
        lemma_ticket_count_prefix(ts, o, k + 1);
        assert(ts.take(k + 1).drop_last() =~= ts.take(k));
    } else {
        assert(ts.take(k) =~= ts);
    }
}

proof fn lemma_owner_count_prefix<S, P>(jobs: Seq<JobView<S, P>>, o: Owner, i: int)
    requires
        0 <= i <= jobs.len(),
    ensures
        owner_count(jobs.take(i), o) <= owner_count(jobs, o),
    decreases jobs.len() - i,
{
    if i < jobs.len() {
        lemma_owner_count_prefix(jobs, o, i + 1);
        assert(jobs.take(i + 1).drop_last() =~= jobs.take(i));
    } else {
        assert(jobs.take(i) =~= jobs);
    }
}

impl<S: Clone + SameRequest, P> Scheduler<S, P> {
    /// Whether `o` has `PER_OWNER` tickets or more on the jobs.
    fn owner_full(&self, o: Owner) -> (r: bool)
        ensures
            r == (owner_count(self.jobs(), o) >= PER_OWNER),
    {
        proof {
            self.lemma_jobs_view();
        }
        let ghost jobs = self.jobs();
        let mut n: usize = 0;
        let mut i: usize = 0;
        while i < self.jobs.len()
            invariant
                i <= self.jobs@.len(),
                jobs == self.jobs(),
                jobs.len() == self.jobs@.len(),
                n == owner_count(jobs.take(i as int), o),
                n < PER_OWNER,
            decreases self.jobs@.len() - i,
        {
            proof {
                self.lemma_jobs_view();
            }
            let ts = &self.jobs[i].tickets;
            let ghost tv = ts@;
            assert(tv == jobs[i as int].tickets);
            let mut k: usize = 0;
            while k < ts.len()
                invariant
                    k <= tv.len(),
                    tv == ts@,
                    tv == jobs[i as int].tickets,
                    i < jobs.len(),
                    jobs == self.jobs(),
                    n == owner_count(jobs.take(i as int), o) + ticket_count(tv.take(k as int), o),
                    n < PER_OWNER,
                decreases tv.len() - k,
            {
                proof {
                    assert(tv.take(k + 1).drop_last() =~= tv.take(k as int));
                }
                if ts[k].owner == o {
                    n = n + 1;
                    if n >= PER_OWNER {
                        proof {
                            assert(tv.take(k + 1).last() == tv[k as int]);
                            assert(ticket_count(tv.take(k + 1), o) == ticket_count(tv.take(k as int), o) + 1);
                            lemma_ticket_count_prefix(tv, o, k + 1);
                            assert(jobs.take(i + 1).drop_last() =~= jobs.take(i as int));
                            assert(jobs.take(i + 1).last() == jobs[i as int]);
                            assert(owner_count(jobs.take(i + 1), o) == owner_count(jobs.take(i as int), o) + ticket_count(tv, o));
                            lemma_owner_count_prefix(jobs, o, i + 1);
                        }
                        return true;
                    }
                }
                k += 1;
            }
            proof {
                assert(tv.take(k as int) =~= tv);
                assert(jobs.take(i + 1).drop_last() =~= jobs.take(i as int));
            }
            i += 1;
        }
        proof {
            assert(jobs.take(i as int) =~= jobs);
        }
        false
    }

    /// The oldest (smallest id) of `o`'s unkeyed tickets whose job has not started recognising.
    fn oldest_evictable(&self, o: Owner) -> (r: Option<TicketId>)
        ensures
            r == if evictable(self.jobs(), o).len() == 0 {
                None
            } else {
                Some(seq_min(evictable(self.jobs(), o)))
            },
    {
        proof {
            self.lemma_jobs_view();
        }
        let ghost jobs = self.jobs();
        let mut best: Option<TicketId> = None;
        let mut i: usize = 0;
        while i < self.jobs.len()
            invariant
                i <= self.jobs@.len(),
                jobs == self.jobs(),
                jobs.len() == self.jobs@.len(),
                best == if evictable(jobs.take(i as int), o).len() == 0 {
                    None
                } else {
                    Some(seq_min(evictable(jobs.take(i as int), o)))
                },
            decreases self.jobs@.len() - i,
        {
            proof {
                self.lemma_jobs_view();
                assert(jobs.take(i + 1).drop_last() =~= jobs.take(i as int));
            }
            let ghost base = evictable(jobs.take(i as int), o);
            if self.jobs[i].stage != Stage::Recognising {
                let ts = &self.jobs[i].tickets;
                let ghost tv = ts@;
                assert(tv == jobs[i as int].tickets);
                let mut k: usize = 0;
                while k < ts.len()
                    invariant
                        k <= tv.len(),
                        tv == ts@,
                        best == if (base + unkeyed_ids(tv.take(k as int), o)).len() == 0 {
                            None
                        } else {
                            Some(seq_min(base + unkeyed_ids(tv.take(k as int), o)))
                        },
                    decreases tv.len() - k,
                {
                    proof {
                        assert(tv.take(k + 1).drop_last() =~= tv.take(k as int));
                    }
                    let t = &ts[k];
                    if t.owner == o && t.key.is_none() {
                        proof {
                            let a = base + unkeyed_ids(tv.take(k as int), o);
                            assert(base + unkeyed_ids(tv.take(k + 1), o) =~= a.push(t.id));
                            assert(a.push(t.id).drop_last() =~= a);
                        }
                        best = match best {
                            Some(m) => if t.id < m {
                                Some(t.id)
                            } else {
                                Some(m)
                            },
                            None => Some(t.id),
                        };
                    } else {
                        proof {
                            assert(base + unkeyed_ids(tv.take(k + 1), o) =~= base + unkeyed_ids(tv.take(k as int), o));
                        }
                    }
                    k += 1;
                }
                proof {
                    assert(tv.take(k as int) =~= tv);
                    assert(evictable(jobs.take(i + 1), o) =~= base + unkeyed_ids(tv, o));
                }
            } else {
                proof {
                    assert(evictable(jobs.take(i + 1), o) =~= base);
                }
            }
            i += 1;
        }
        proof {
            assert(jobs.take(i as int) =~= jobs);
        }
        best
    }
}


impl<S: Clone + SameRequest, P> Scheduler<S, P> {
    /// The first job waiting for its capture whose description equals `spec`.
    fn find_join(&self, spec: &S) -> (r: Option<usize>)
        ensures
            r matches Some(i) ==> i < self.jobs().len() && waiting(self.jobs()[i as int]),
            match join_index(self.jobs(), *spec) {
                Some(i) => r == Some(i as usize),
                None => r is None,
            },
            (r matches Some(i) ==> join_index(self.jobs(), *spec) == Some(i as int)),
    {
        let ghost p = |j: JobView<S, P>| waiting(j) && j.spec.same_as(spec);
        proof {
            lemma_first_where(self.jobs(), p);
            self.lemma_jobs_view();
            assert(join_index(self.jobs(), *spec) == first_where(self.jobs(), p));
        }
        let mut i: usize = 0;
        while i < self.jobs.len()
            invariant
                i <= self.jobs@.len(),
                p == (|j: JobView<S, P>| waiting(j) && j.spec.same_as(spec)),
                forall|k: int| 0 <= k < i ==> !p(#[trigger] self.jobs()[k]),
            decreases self.jobs@.len() - i,
        {
            proof {
                self.lemma_jobs_view();
            }
            assert(self.jobs@[i as int].view() == self.jobs()[i as int]);
            if self.jobs[i].stage == Stage::AwaitCapture && self.jobs[i].spec.same(spec) {
                proof {
                    lemma_first_where(self.jobs(), p);
                    assert(join_index(self.jobs(), *spec) == first_where(self.jobs(), p));
                }
                return Some(i);
            }
            i += 1;
        }
        None
    }

    /// Takes `ticket`'s request for `spec` (see `submit_model`): what became of it.
    #[verifier::spinoff_prover]
    pub fn submit(&mut self, spec: S, ticket: Ticket, now: u64) -> (out: Submitted)
        requires
            old(self).wf(),
            old(self).next_id() < u64::MAX,
        ensures
            final(self).wf(),
            forall|p: Priority| final(self).last_served(p) == old(self).last_served(p),
            final(self).jobs() == submit_model(old(self).jobs(), old(self).next_id(), spec, ticket, now).jobs,
            final(self).next_id() == submit_model(old(self).jobs(), old(self).next_id(), spec, ticket, now).next,
            out.job == submit_model(old(self).jobs(), old(self).next_id(), spec, ticket, now).job,
            out.joined == submit_model(old(self).jobs(), old(self).next_id(), spec, ticket, now).joined,
            out.stale@ == submit_model(old(self).jobs(), old(self).next_id(), spec, ticket, now).stale,
            out.evicted@ == submit_model(old(self).jobs(), old(self).next_id(), spec, ticket, now).evicted,
            match (out.refused, submit_model(old(self).jobs(), old(self).next_id(), spec, ticket, now).refused) {
                (Some(a), Some(b)) => a@ == b,
                (None, None) => true,
                _ => false,
            },
    {
        let ghost jobs0 = self.jobs();
        let ghost next0 = self.next_job;
        let mut stale: Vec<TicketId> = Vec::new();
        match &ticket.key {
            Some(k) => {
                stale = self.supersede(ticket.owner, k.as_str());
            },
            None => {},
        }
        let ghost j1 = self.jobs();
        let ghost m = submit_model(jobs0, next0, spec, ticket, now);
        assert(j1 == match ticket.key {
            Some(k) => remove_model(jobs0, Removal::Superseded { owner: ticket.owner, key: k@ }),
            None => (jobs0, Seq::<TicketId>::empty()),
        }.0);
        assert(stale@ == match ticket.key {
            Some(k) => remove_model(jobs0, Removal::Superseded { owner: ticket.owner, key: k@ }),
            None => (jobs0, Seq::<TicketId>::empty()),
        }.1);
        let mut evicted: Vec<TicketId> = Vec::new();
        if self.owner_full(ticket.owner) {
            match self.oldest_evictable(ticket.owner) {
                Some(v) => {
                    let rule = Rule::Evicted { id: v };
                    let _ = self.remove_where(&rule);
                    evicted.push(v);
                },
                None => {
                    return Submitted {
                        job: None,
                        joined: false,
                        stale,
                        evicted,
                        refused: Some(<String as StringExecFns>::from_str(TOO_MANY)),
                    };
                },
            }
        }
        let ghost j2 = self.jobs();
        assert(m == place(j2, next0, spec, ticket, now, stale@, evicted@));
        self.place(spec, ticket, now, stale, evicted)
    }

    /// Places a ticket the VM has room for: see `place`.
    fn place(&mut self, spec: S, ticket: Ticket, now: u64, stale: Vec<TicketId>, evicted: Vec<TicketId>) -> (out: Submitted)
        requires
            old(self).wf(),
            old(self).next_id() < u64::MAX,
        ensures
            final(self).wf(),
            final(self).last_interactive == old(self).last_interactive,
            final(self).last_background == old(self).last_background,
            final(self).jobs() == place(old(self).jobs(), old(self).next_id(), spec, ticket, now, stale@, evicted@).jobs,
            final(self).next_id() == place(old(self).jobs(), old(self).next_id(), spec, ticket, now, stale@, evicted@).next,
            out.job == place(old(self).jobs(), old(self).next_id(), spec, ticket, now, stale@, evicted@).job,
            out.joined == place(old(self).jobs(), old(self).next_id(), spec, ticket, now, stale@, evicted@).joined,
            out.stale@ == place(old(self).jobs(), old(self).next_id(), spec, ticket, now, stale@, evicted@).stale,
            out.evicted@ == place(old(self).jobs(), old(self).next_id(), spec, ticket, now, stale@, evicted@).evicted,
            match (out.refused, place(old(self).jobs(), old(self).next_id(), spec, ticket, now, stale@, evicted@).refused) {
                (Some(a), Some(b)) => a@ == b,
                (None, None) => true,
                _ => false,
            },
    {
        match self.find_join(&spec) {
            Some(i) => {
                let ghost before = self.jobs();
                proof {
                    self.lemma_jobs_view();
                    assert(job_ok(before[i as int]));
                    lemma_tickets_prio_push(before[i as int].tickets, ticket);
                }
                let id = self.jobs[i].id;
                let np = priority_max(self.jobs[i].prio, ticket.prio);
                self.jobs[i].prio = np;
                self.jobs[i].tickets.push(ticket);
                proof {
                    self.lemma_jobs_view();
                    let x = JobView {
                        prio: prio_max(before[i as int].prio, ticket.prio),
                        tickets: before[i as int].tickets.push(ticket),
                        ..before[i as int]
                    };
                    assert(self.jobs() =~= before.update(i as int, x));
                    assert forall|k: int| 0 <= k < self.jobs().len() implies job_ok(#[trigger] self.jobs()[k]) by {
                        assert(job_ok(before[k]));
                    }
                    assert forall|k: int| 0 <= k < self.jobs().len() implies (#[trigger] self.jobs()[k]).id
                        < self.next_job by {
                        assert(before[k].id < self.next_job);
                    }
                    assert forall|a: int, b: int| 0 <= a < b < self.jobs().len() implies (#[trigger] self.jobs()[a]).id
                        != (#[trigger] self.jobs()[b]).id by {
                        assert(before[a].id != before[b].id);
                    }
                }
                return Submitted { job: Some(id), joined: true, stale, evicted, refused: None };
            },
            None => {},
        }
        if self.jobs.len() >= TOTAL {
            return Submitted {
                job: None,
                joined: false,
                stale,
                evicted,
                refused: Some(<String as StringExecFns>::from_str(ALL_FULL)),
            };
        }
        let id = self.next_job;
        self.next_job = self.next_job + 1;
        let ghost before = self.jobs();
        proof {
            self.lemma_jobs_view();
        }
        let prio = ticket.prio;
        let mut tickets: Vec<Ticket> = Vec::new();
        tickets.push(ticket);
        self.jobs.push(
            Job {
                id,
                spec,
                prio,
                urgent: false,
                tickets,
                stage: Stage::AwaitCapture,
                asked: now,
                capture_started: None,
                captured_at: None,
                pixels: None,
                bytes: 0,
            },
        );
        proof {
            self.lemma_jobs_view();
            assert(self.jobs() =~= before.push(new_job(id, spec, ticket, now)));
            assert(seq![ticket] =~= tickets@);
            assert forall|k: int| 0 <= k < self.jobs().len() implies job_ok(#[trigger] self.jobs()[k]) by {
                if k < before.len() {
                    assert(job_ok(before[k]));
                } else {
                    assert(self.jobs()[k].tickets[0] == ticket);
                }
            }
            assert forall|k: int| 0 <= k < self.jobs().len() implies (#[trigger] self.jobs()[k]).id
                < self.next_job by {
                if k < before.len() {
                    assert(before[k].id < id);
                }
            }
            assert forall|a: int, b: int| 0 <= a < b < self.jobs().len() implies (#[trigger] self.jobs()[a]).id
                != (#[trigger] self.jobs()[b]).id by {
                if b < before.len() {
                    assert(before[a].id != before[b].id);
                } else {
                    assert(before[a].id < id);
                }
            }
        }
        Submitted { job: Some(id), joined: false, stale, evicted, refused: None }
    }
}


/// Every ticket of owner `o` with key `k` on a job that has not started recognising is `t`.
pub open spec fn only_latest<S, P>(jobs: Seq<JobView<S, P>>, o: Owner, k: Seq<char>, t: Option<Ticket>) -> bool {
    forall|i: int, j: int|
        0 <= i < jobs.len() && jobs[i].stage != Stage::Recognising && 0 <= j < jobs[i].tickets.len()
            && (#[trigger] jobs[i].tickets[j]).owner == o && has_key(jobs[i].tickets[j], k) ==> Some(
            jobs[i].tickets[j],
        ) == t
}

proof fn lemma_kept_from(ts: Seq<Ticket>, stage: Stage, r: Removal)
    ensures
        forall|t: Ticket| #[trigger] kept(ts, stage, r).contains(t) ==> ts.contains(t) && !removes(r, stage, t),
    decreases ts.len(),
{
    if ts.len() > 0 {
        lemma_kept_from(ts.drop_last(), stage, r);
        let rest = kept(ts.drop_last(), stage, r);
        assert forall|t: Ticket| #[trigger] kept(ts, stage, r).contains(t) implies ts.contains(t) && !removes(r, stage, t) by {
            let q = choose|q: int| 0 <= q < kept(ts, stage, r).len() && kept(ts, stage, r)[q] == t;
            if q < rest.len() {
                assert(kept(ts, stage, r)[q] == rest[q]);
                assert(rest.contains(t));
                let p = choose|p: int| 0 <= p < ts.drop_last().len() && ts.drop_last()[p] == t;
                assert(ts[p] == t);
            } else {
                assert(t == ts.last());
                assert(ts[ts.len() - 1] == t);
            }
        }
    }
}

/// What settling keeps of each job: its stage and its tickets.
proof fn lemma_settle_from<S, P>(s: Seq<JobView<S, P>>)
    ensures
        forall|i: int|
            0 <= i < settle(s).len() ==> exists|q: int|
                0 <= q < s.len() && (#[trigger] settle(s)[i]).tickets == (#[trigger] s[q]).tickets
                    && settle(s)[i].stage == s[q].stage,
    decreases s.len(),
{
    if s.len() > 0 {
        let d = s.drop_last();
        lemma_settle_from(d);
        let rest = settle(d);
        assert forall|i: int| 0 <= i < settle(s).len() implies exists|q: int|
            0 <= q < s.len() && (#[trigger] settle(s)[i]).tickets == (#[trigger] s[q]).tickets && settle(s)[i].stage
                == s[q].stage by {
            if i < rest.len() {
                assert(settle(s)[i] == rest[i]);
                let q = choose|q: int| 0 <= q < d.len() && (#[trigger] rest[i]).tickets == (#[trigger] d[q]).tickets && rest[i].stage == d[q].stage;
                assert(d[q] == s[q]);
            } else {
                assert(settle(s)[i].tickets == s[s.len() - 1].tickets);
            }
        }
    }
}

/// A removal and the settling after it leave no ticket that was not there, and none it takes.
proof fn lemma_removal_keeps<S, P>(jobs: Seq<JobView<S, P>>, r: Removal, o: Owner, k: Seq<char>, t: Option<Ticket>)
    requires
        only_latest(jobs, o, k, t),
    ensures
        only_latest(remove_model(jobs, r).0, o, k, t),
{
    let st = strip_all(jobs, r);
    lemma_settle_from(st);
    let out = settle(st);
    assert forall|i: int, j: int|
        0 <= i < out.len() && out[i].stage != Stage::Recognising && 0 <= j < out[i].tickets.len() && (#[trigger] out[i].tickets[j]).owner
            == o && has_key(out[i].tickets[j], k) implies Some(out[i].tickets[j]) == t by {
        let q = choose|q: int| 0 <= q < st.len() && (#[trigger] out[i]).tickets == (#[trigger] st[q]).tickets && out[i].stage == st[q].stage;
        let x = out[i].tickets[j];
        lemma_kept_from(jobs[q].tickets, jobs[q].stage, r);
        assert(st[q].tickets == kept(jobs[q].tickets, jobs[q].stage, r));
        assert(kept(jobs[q].tickets, jobs[q].stage, r).contains(x));
        let p = choose|p: int| 0 <= p < jobs[q].tickets.len() && jobs[q].tickets[p] == x;
        assert(jobs[q].tickets[p] == x);
    }
}

/// Latest wins per key: once a ticket with a key is submitted, every ticket of the same module
/// VM with that key on a job that has not started recognising is that ticket, whatever came of
/// it (joined, queued, or refused).
pub proof fn latest_wins<S: SameRequest, P>(jobs: Seq<JobView<S, P>>, next: JobId, spec: S, ticket: Ticket, now: u64)
    requires
        ticket.key is Some,
    ensures
        only_latest(
            submit_model(jobs, next, spec, ticket, now).jobs,
            ticket.owner,
            ticket.key->0@,
            Some(ticket),
        ),
{
    let k = ticket.key->0@;
    let o = ticket.owner;
    let r = Removal::Superseded { owner: o, key: k };
    assert forall|i: int, j: int|
        0 <= i < remove_model(jobs, r).0.len() && remove_model(jobs, r).0[i].stage != Stage::Recognising && 0 <= j
            < remove_model(jobs, r).0[i].tickets.len() && (#[trigger] remove_model(jobs, r).0[i].tickets[j]).owner == o && has_key(
            remove_model(jobs, r).0[i].tickets[j],
            k,
        ) implies false by {
        let st = strip_all(jobs, r);
        lemma_settle_from(st);
        let out = settle(st);
        let q = choose|q: int| 0 <= q < st.len() && (#[trigger] out[i]).tickets == (#[trigger] st[q]).tickets && out[i].stage == st[q].stage;
        let x = out[i].tickets[j];
        lemma_kept_from(jobs[q].tickets, jobs[q].stage, r);
        assert(kept(jobs[q].tickets, jobs[q].stage, r).contains(x));
    }
    let j1 = remove_model(jobs, r).0;
    assert(only_latest(j1, o, k, None));
    let m = submit_model(jobs, next, spec, ticket, now);
    if owner_count(j1, o) >= PER_OWNER && evictable(j1, o).len() > 0 {
        let v = seq_min(evictable(j1, o));
        lemma_removal_keeps(j1, Removal::Evicted { id: v }, o, k, None);
        lemma_place_latest(remove_model(j1, Removal::Evicted { id: v }).0, next, spec, ticket, now, seq![], seq![v]);
    } else if owner_count(j1, o) < PER_OWNER {
        lemma_place_latest(j1, next, spec, ticket, now, seq![], Seq::empty());
    }
    assert(only_latest(m.jobs, o, k, Some(ticket)));
}

proof fn lemma_place_latest<S: SameRequest, P>(
    jobs: Seq<JobView<S, P>>,
    next: JobId,
    spec: S,
    ticket: Ticket,
    now: u64,
    stale: Seq<TicketId>,
    evicted: Seq<TicketId>,
)
    requires
        ticket.key is Some,
        only_latest(jobs, ticket.owner, ticket.key->0@, None),
    ensures
        forall|st: Seq<TicketId>| #![auto] only_latest(place(jobs, next, spec, ticket, now, st, evicted).jobs, ticket.owner, ticket.key->0@, Some(ticket)),
{
    let k = ticket.key->0@;
    let o = ticket.owner;
    assert forall|st: Seq<TicketId>| #![auto] only_latest(place(jobs, next, spec, ticket, now, st, evicted).jobs, o, k, Some(ticket)) by {
        let m = place(jobs, next, spec, ticket, now, st, evicted);
        match join_index(jobs, spec) {
            Some(n) => {
                lemma_first_where(jobs, |j: JobView<S, P>| waiting(j) && j.spec.same_as(&spec));
                assert forall|i: int, j: int|
                    0 <= i < m.jobs.len() && m.jobs[i].stage != Stage::Recognising && 0 <= j < m.jobs[i].tickets.len()
                        && (#[trigger] m.jobs[i].tickets[j]).owner == o && has_key(m.jobs[i].tickets[j], k) implies Some(
                    m.jobs[i].tickets[j],
                ) == Some(ticket) by {
                    if i == n {
                        if j < jobs[n].tickets.len() {
                            assert(m.jobs[i].tickets[j] == jobs[n].tickets[j]);
                        }
                    } else {
                        assert(m.jobs[i] == jobs[i]);
                    }
                }
            },
            None => {
                if jobs.len() < TOTAL {
                    assert forall|i: int, j: int|
                        0 <= i < m.jobs.len() && m.jobs[i].stage != Stage::Recognising && 0 <= j < m.jobs[i].tickets.len()
                            && (#[trigger] m.jobs[i].tickets[j]).owner == o && has_key(m.jobs[i].tickets[j], k) implies Some(
                        m.jobs[i].tickets[j],
                    ) == Some(ticket) by {
                        if i < jobs.len() {
                            assert(m.jobs[i] == jobs[i]);
                        }
                    }
                }
            },
        }
    }
}


proof fn lemma_count_kept(ts: Seq<Ticket>, stage: Stage, r: Removal, o: Owner)
    ensures
        ticket_count(kept(ts, stage, r), o) <= ticket_count(ts, o),
        (exists|p: int| 0 <= p < ts.len() && (#[trigger] ts[p]).owner == o && removes(r, stage, ts[p])) ==> ticket_count(
            kept(ts, stage, r),
            o,
        ) < ticket_count(ts, o),
    decreases ts.len(),
{
    if ts.len() > 0 {
        let d = ts.drop_last();
        lemma_count_kept(d, stage, r, o);
        let rest = kept(d, stage, r);
        if !removes(r, stage, ts.last()) {
            assert(kept(ts, stage, r).drop_last() =~= rest);
        }
        if exists|p: int| 0 <= p < ts.len() && (#[trigger] ts[p]).owner == o && removes(r, stage, ts[p]) {
            let p = choose|p: int| 0 <= p < ts.len() && (#[trigger] ts[p]).owner == o && removes(r, stage, ts[p]);
            if p < ts.len() - 1 {
                assert(d[p] == ts[p]);
            }
        }
    }
}

proof fn lemma_count_settle<S, P>(s: Seq<JobView<S, P>>, o: Owner)
    ensures
        owner_count(settle(s), o) == owner_count(s, o),
    decreases s.len(),
{
    if s.len() > 0 {
        lemma_count_settle(s.drop_last(), o);
        let j = s.last();
        if j.stage == Stage::Recognising || j.tickets.len() > 0 {
            let x = if j.stage == Stage::Recognising { j } else { JobView { prio: tickets_prio(j.tickets), ..j } };
            assert(settle(s).drop_last() =~= settle(s.drop_last()));
            assert(settle(s).last() == x);
        } else {
            assert(ticket_count(j.tickets, o) == 0);
        }
    }
}

proof fn lemma_count_strip<S, P>(jobs: Seq<JobView<S, P>>, r: Removal, o: Owner)
    ensures
        owner_count(strip_all(jobs, r), o) <= owner_count(jobs, o),
        (exists|q: int, p: int|
            0 <= q < jobs.len() && 0 <= p < jobs[q].tickets.len() && (#[trigger] jobs[q].tickets[p]).owner == o
                && removes(r, jobs[q].stage, jobs[q].tickets[p])) ==> owner_count(strip_all(jobs, r), o) < owner_count(
            jobs,
            o,
        ),
    decreases jobs.len(),
{
    if jobs.len() > 0 {
        let d = jobs.drop_last();
        lemma_count_strip(d, r, o);
        let j = jobs.last();
        lemma_count_kept(j.tickets, j.stage, r, o);
        assert(strip_all(jobs, r).drop_last() =~= strip_all(d, r));
        assert(strip_all(jobs, r).last() == strip_job(j, r));
        if exists|q: int, p: int|
            0 <= q < jobs.len() && 0 <= p < jobs[q].tickets.len() && (#[trigger] jobs[q].tickets[p]).owner == o
                && removes(r, jobs[q].stage, jobs[q].tickets[p]) {
            let (q, p) = choose|q: int, p: int|
                0 <= q < jobs.len() && 0 <= p < jobs[q].tickets.len() && (#[trigger] jobs[q].tickets[p]).owner == o
                    && removes(r, jobs[q].stage, jobs[q].tickets[p]);
            if q < jobs.len() - 1 {
                assert(d[q] == jobs[q]);
                assert(d[q].tickets[p] == jobs[q].tickets[p]);
            } else {
                assert(j.tickets[p] == jobs[q].tickets[p]);
            }
        }
    }
}

proof fn lemma_unkeyed_from(ts: Seq<Ticket>, o: Owner, v: TicketId)
    requires
        unkeyed_ids(ts, o).contains(v),
    ensures
        exists|p: int| 0 <= p < ts.len() && (#[trigger] ts[p]).owner == o && ts[p].id == v,
    decreases ts.len(),
{
    let d = ts.drop_last();
    let rest = unkeyed_ids(d, o);
    if rest.contains(v) {
        lemma_unkeyed_from(d, o, v);
        let p = choose|p: int| 0 <= p < d.len() && (#[trigger] d[p]).owner == o && d[p].id == v;
        assert(ts[p] == d[p]);
    } else {
        let k = choose|k: int| 0 <= k < unkeyed_ids(ts, o).len() && unkeyed_ids(ts, o)[k] == v;
        if ts.last().owner == o && ts.last().key is None {
            if k < rest.len() {
                assert(unkeyed_ids(ts, o)[k] == rest[k]);
            }
            assert(ts[ts.len() - 1] == ts.last());
        }
    }
}

proof fn lemma_evictable_from<S, P>(jobs: Seq<JobView<S, P>>, o: Owner, v: TicketId)
    requires
        evictable(jobs, o).contains(v),
    ensures
        exists|q: int, p: int|
            0 <= q < jobs.len() && 0 <= p < jobs[q].tickets.len() && (#[trigger] jobs[q].tickets[p]).owner == o
                && jobs[q].tickets[p].id == v,
    decreases jobs.len(),
{
    let d = jobs.drop_last();
    let j = jobs.last();
    let tail = if j.stage != Stage::Recognising { unkeyed_ids(j.tickets, o) } else { Seq::<TicketId>::empty() };
    let rest = evictable(d, o);
    let k = choose|k: int| 0 <= k < evictable(jobs, o).len() && evictable(jobs, o)[k] == v;
    if k < rest.len() {
        assert(rest[k] == v);
        lemma_evictable_from(d, o, v);
        let (q, p) = choose|q: int, p: int|
            0 <= q < d.len() && 0 <= p < d[q].tickets.len() && (#[trigger] d[q].tickets[p]).owner == o && d[q].tickets[p].id == v;
        assert(jobs[q] == d[q]);
        assert(jobs[q].tickets[p] == d[q].tickets[p]);
    } else {
        assert(tail[k - rest.len()] == v);
        assert(tail.contains(v));
        lemma_unkeyed_from(j.tickets, o, v);
        let p = choose|p: int| 0 <= p < j.tickets.len() && (#[trigger] j.tickets[p]).owner == o && j.tickets[p].id == v;
        assert(jobs[jobs.len() - 1].tickets[p] == j.tickets[p]);
    }
}

proof fn lemma_seq_min_in(s: Seq<u64>)
    requires
        s.len() > 0,
    ensures
        s.contains(seq_min(s)),
    decreases s.len(),
{
    if s.len() == 1 {
        assert(s[0] == seq_min(s));
    } else {
        lemma_seq_min_in(s.drop_last());
        if s.last() < seq_min(s.drop_last()) {
            assert(s[s.len() - 1] == seq_min(s));
        } else {
            let k = choose|k: int| 0 <= k < s.drop_last().len() && s.drop_last()[k] == seq_min(s.drop_last());
            assert(s[k] == seq_min(s));
        }
    }
}

proof fn lemma_count_update<S, P>(jobs: Seq<JobView<S, P>>, i: int, x: JobView<S, P>, o: Owner)
    requires
        0 <= i < jobs.len(),
    ensures
        owner_count(jobs.update(i, x), o) + ticket_count(jobs[i].tickets, o) == owner_count(jobs, o) + ticket_count(
            x.tickets,
            o,
        ),
    decreases jobs.len(),
{
    let u = jobs.update(i, x);
    if i == jobs.len() - 1 {
        assert(u.drop_last() =~= jobs.drop_last());
    } else {
        lemma_count_update(jobs.drop_last(), i, x, o);
        assert(u.drop_last() =~= jobs.drop_last().update(i, x));
    }
}

/// The number of `o`'s tickets a submission leaves, against what it found: one more when the
/// ticket is `o`'s and is placed, and otherwise no more.
proof fn lemma_count_place<S: SameRequest, P>(
    jobs: Seq<JobView<S, P>>,
    next: JobId,
    spec: S,
    ticket: Ticket,
    now: u64,
    stale: Seq<TicketId>,
    evicted: Seq<TicketId>,
    o: Owner,
)
    ensures
        owner_count(place(jobs, next, spec, ticket, now, stale, evicted).jobs, o) <= owner_count(jobs, o) + if ticket.owner
            == o {
            1int
        } else {
            0int
        },
{
    let m = place(jobs, next, spec, ticket, now, stale, evicted);
    match join_index(jobs, spec) {
        Some(n) => {
            lemma_first_where(jobs, |j: JobView<S, P>| waiting(j) && j.spec.same_as(&spec));
            let x = JobView { prio: prio_max(jobs[n].prio, ticket.prio), tickets: jobs[n].tickets.push(ticket), ..jobs[n] };
            assert(m.jobs == jobs.update(n, x));
            lemma_count_update(jobs, n, x, o);
            assert(x.tickets.drop_last() =~= jobs[n].tickets);
            assert(ticket_count(x.tickets, o) == ticket_count(jobs[n].tickets, o) + if ticket.owner == o { 1int } else { 0int });
        },
        None => {
            if jobs.len() < TOTAL {
                let nj = new_job::<S, P>(next, spec, ticket, now);
                assert(m.jobs == jobs.push(nj));
                assert(m.jobs.drop_last() =~= jobs);
                assert(nj.tickets.drop_last() =~= Seq::<Ticket>::empty());
                assert(ticket_count(Seq::<Ticket>::empty(), o) == 0);
                assert(ticket_count(nj.tickets, o) == if ticket.owner == o { 1int } else { 0int });
                assert(owner_count(m.jobs, o) == owner_count(jobs, o) + ticket_count(nj.tickets, o));
            }
        },
    }
}

/// Bounded per module VM: a submission never leaves a module VM with more than `PER_OWNER`
/// tickets when it had at most that many. A VM that has them all either gives up its oldest
/// evictable ticket for the new one or is refused, and no other VM gains a ticket.
pub proof fn owner_stays_bounded<S: SameRequest, P>(
    jobs: Seq<JobView<S, P>>,
    next: JobId,
    spec: S,
    ticket: Ticket,
    now: u64,
    o: Owner,
)
    requires
        owner_count(jobs, o) <= PER_OWNER,
    ensures
        owner_count(submit_model(jobs, next, spec, ticket, now).jobs, o) <= PER_OWNER,
{
    let j1 = match ticket.key {
        Some(k) => remove_model(jobs, Removal::Superseded { owner: ticket.owner, key: k@ }).0,
        None => jobs,
    };
    match ticket.key {
        Some(k) => {
            let r = Removal::Superseded { owner: ticket.owner, key: k@ };
            lemma_count_strip(jobs, r, o);
            lemma_count_settle(strip_all(jobs, r), o);
        },
        None => {},
    }
    assert(owner_count(j1, o) <= owner_count(jobs, o));
    let w = ticket.owner;
    if owner_count(j1, w) >= PER_OWNER {
        let victims = evictable(j1, w);
        if victims.len() > 0 {
            let v = seq_min(victims);
            let r = Removal::Evicted { id: v };
            let j2 = remove_model(j1, r).0;
            lemma_count_strip(j1, r, o);
            lemma_count_settle(strip_all(j1, r), o);
            lemma_count_place(j2, next, spec, ticket, now, match ticket.key {
                Some(k) => remove_model(jobs, Removal::Superseded { owner: ticket.owner, key: k@ }).1,
                None => Seq::empty(),
            }, seq![v], o);
            if w == o {
                lemma_seq_min_in(victims);
                lemma_evictable_from(j1, w, v);
                assert(owner_count(j2, o) < owner_count(j1, o));
            }
        }
    } else {
        lemma_count_place(j1, next, spec, ticket, now, match ticket.key {
            Some(k) => remove_model(jobs, Removal::Superseded { owner: ticket.owner, key: k@ }).1,
            None => Seq::empty(),
        }, Seq::empty(), o);
    }
}


impl<S, P> Scheduler<S, P> {
    /// A job's priority is its tickets': interactive work waits exactly when a job that is not
    /// being recognised carries an interactive ticket — so what `interactive_waiting` answers is
    /// whether any such ticket is waiting.
    pub proof fn interactive_work_is_an_interactive_ticket(&self)
        requires
            self.wf(),
        ensures
            (exists|i: int|
                0 <= i < self.jobs().len() && (#[trigger] self.jobs()[i]).stage != Stage::Recognising && self.jobs()[i].prio
                    == Priority::Interactive) <==> (exists|i: int, k: int|
                0 <= i < self.jobs().len() && (#[trigger] self.jobs()[i]).stage != Stage::Recognising && 0 <= k
                    < self.jobs()[i].tickets.len() && (#[trigger] self.jobs()[i].tickets[k]).prio == Priority::Interactive),
    {
        let jobs = self.jobs();
        if exists|i: int|
            0 <= i < jobs.len() && (#[trigger] jobs[i]).stage != Stage::Recognising && jobs[i].prio == Priority::Interactive {
            let i = choose|i: int|
                0 <= i < jobs.len() && (#[trigger] jobs[i]).stage != Stage::Recognising && jobs[i].prio == Priority::Interactive;
            assert(job_ok(jobs[i]));
            let k = choose|k: int| 0 <= k < jobs[i].tickets.len() && (#[trigger] jobs[i].tickets[k]).prio == Priority::Interactive;
            assert(jobs[i].tickets[k].prio == Priority::Interactive);
        }
        if exists|i: int, k: int|
            0 <= i < jobs.len() && (#[trigger] jobs[i]).stage != Stage::Recognising && 0 <= k < jobs[i].tickets.len() && (
            #[trigger] jobs[i].tickets[k]).prio == Priority::Interactive {
            let (i, k) = choose|i: int, k: int|
                0 <= i < jobs.len() && (#[trigger] jobs[i]).stage != Stage::Recognising && 0 <= k < jobs[i].tickets.len() && (
                #[trigger] jobs[i].tickets[k]).prio == Priority::Interactive;
            assert(job_ok(jobs[i]));
            assert(jobs[i].prio == Priority::Interactive);
        }
    }

    /// What every operation keeps: at most `TOTAL` jobs, each job's id its own, and a job that
    /// has not started recognising has tickets and takes its priority from them (interactive
    /// when any of its tickets is).
    pub proof fn kept_by_every_operation(&self)
        requires
            self.wf(),
        ensures
            self.jobs().len() <= TOTAL,
            forall|a: int, b: int| 0 <= a < b < self.jobs().len() ==> (#[trigger] self.jobs()[a]).id != (#[trigger] self.jobs()[b]).id,
            forall|i: int|
                0 <= i < self.jobs().len() && (#[trigger] self.jobs()[i]).stage != Stage::Recognising ==> self.jobs()[i].tickets.len()
                    > 0 && self.jobs()[i].prio == tickets_prio(self.jobs()[i].tickets),
    {
        assert forall|i: int|
            0 <= i < self.jobs().len() && (#[trigger] self.jobs()[i]).stage != Stage::Recognising implies self.jobs()[i].tickets.len()
                > 0 && self.jobs()[i].prio == tickets_prio(self.jobs()[i].tickets) by {
            assert(job_ok(self.jobs()[i]));
        }
    }
}

} // verus!
