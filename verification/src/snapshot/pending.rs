//! What `host.screen.snapshotAsync` keeps on the event loop until each request is answered:
//! the requests with the capture thread, those answered on the next tick without it, the
//! newest request per module VM and key, and how many may wait at once.
//!
//! Every request is answered exactly once — `cb(snap, nil, info)` or `cb(nil, reason, info)` —
//! unless its module is dropped first. A newer request with the same key answers the older one;
//! too many at once end the module's oldest or refuse the new one, never both for one request.
use std::sync::atomic::{AtomicBool, Ordering};
use std::sync::Arc;

use vstd::prelude::*;

use crate::sched::Owner;
use crate::snap_queue::{ChangeInfo, Frame, SnapDone, SnapId, SnapOutcome};
use crate::text::{decimal, decimal_text, joined, same_text};
use crate::types::{Priority, Rect};
use vstd::string::StringExecFns;

verus! {

/// What a request is answered when a newer one with the same key replaced it.
pub const SUPERSEDED: &'static str = "a newer request with the same key replaced this one";

/// How many requests may wait at once: per module VM, and change waits among them; in the whole
/// application, and change waits among them.
#[derive(Clone, Copy, Debug, PartialEq, Eq, Structural)]
pub struct SnapLimits {
    pub per_owner: usize,
    pub waits_per_owner: usize,
    pub waits: usize,
    pub total: usize,
}

/// A request waiting for its answer. `cb` is what answering it calls; `res` its charge against
/// the budgets, handed to the snapshot when one comes and given back as soon as none will.
pub struct PendingSnap<C, R> {
    pub id: SnapId,
    pub owner: Owner,
    pub prio: Priority,
    pub key: Option<String>,
    /// A change wait.
    pub change: bool,
    /// Set when nobody waits for the capture thread's answer any more.
    pub cancel: Arc<AtomicBool>,
    pub asked: u64,
    pub cb: C,
    pub res: Option<R>,
}

/// What a callback is called with; `waited` in milliseconds.
pub enum Answer {
    Picture { frame: Arc<Frame>, frames: u32, change: Option<ChangeInfo>, waited: u64 },
    Failed { why: String, frames: u32, change: Option<ChangeInfo>, waited: u64 },
}

/// The requests as contracts speak of them: those with the thread, oldest first; those answered
/// on the next tick, with their reason, in the order they were decided; the newest request per
/// module VM and key; and the last id given out.
pub struct SnapModel<C, R> {
    pub pending: Seq<PendingSnap<C, R>>,
    pub ready: Seq<(PendingSnap<C, R>, Seq<char>)>,
    pub keys: Seq<(Owner, Seq<char>, SnapId)>,
    pub next_id: SnapId,
}

/// Everything `snapshotAsync` keeps on the event loop.
pub struct SnapState<C, R> {
    pending: Vec<PendingSnap<C, R>>,
    ready: Vec<(PendingSnap<C, R>, String)>,
    newest_key: Vec<(Owner, String, SnapId)>,
    next_id: SnapId,
    limits: SnapLimits,
}

/// Ids only grow, no request is both with the thread and answered, and a module VM's key has
/// one newest request.
pub open spec fn model_wf<C, R>(m: SnapModel<C, R>) -> bool {
    &&& forall|i: int, j: int| 0 <= i < j < m.pending.len() ==> m.pending[i].id < m.pending[j].id
    &&& forall|i: int| 0 <= i < m.pending.len() ==> m.pending[i].id <= m.next_id
    &&& forall|i: int| 0 <= i < m.ready.len() ==> m.ready[i].0.id <= m.next_id
    &&& forall|i: int, j: int| 0 <= i < j < m.ready.len() ==> m.ready[i].0.id != m.ready[j].0.id
    &&& forall|i: int, j: int|
        0 <= i < m.ready.len() && 0 <= j < m.pending.len() ==> m.ready[i].0.id != m.pending[j].id
    &&& forall|i: int, j: int|
        0 <= i < j < m.keys.len() ==> !(m.keys[i].0 == m.keys[j].0 && m.keys[i].1 == m.keys[j].1)
}

pub open spec fn has_id<C, R>(s: Seq<PendingSnap<C, R>>, id: SnapId) -> bool {
    exists|i: int| 0 <= i < s.len() && s[i].id == id
}

pub open spec fn index_of<C, R>(s: Seq<PendingSnap<C, R>>, id: SnapId) -> int {
    choose|i: int| 0 <= i < s.len() && s[i].id == id
}

/// `p` once no picture will come for it: its charge given back.
pub open spec fn ended<C, R>(p: PendingSnap<C, R>) -> PendingSnap<C, R> {
    PendingSnap { res: None, ..p }
}

/// Request `id` taken off the thread's hands and answered `why` on the next tick.
pub open spec fn end_model<C, R>(m: SnapModel<C, R>, id: SnapId, why: Seq<char>) -> SnapModel<C, R> {
    if has_id(m.pending, id) {
        let i = index_of(m.pending, id);
        SnapModel { pending: m.pending.remove(i), ready: m.ready.push((ended(m.pending[i]), why)), ..m }
    } else {
        m
    }
}

pub open spec fn has_key(keys: Seq<(Owner, Seq<char>, SnapId)>, o: Owner, k: Seq<char>) -> bool {
    exists|i: int| 0 <= i < keys.len() && keys[i].0 == o && keys[i].1 == k
}

pub open spec fn key_at(keys: Seq<(Owner, Seq<char>, SnapId)>, o: Owner, k: Seq<char>) -> int {
    choose|i: int| 0 <= i < keys.len() && keys[i].0 == o && keys[i].1 == k
}

/// The newest request of module VM `o` with key `k`, while it is remembered.
pub open spec fn newest(keys: Seq<(Owner, Seq<char>, SnapId)>, o: Owner, k: Seq<char>) -> Option<SnapId> {
    if has_key(keys, o, k) {
        Some(keys[key_at(keys, o, k)].2)
    } else {
        None
    }
}

/// `id` remembered as the newest request of `o` with key `k`.
pub open spec fn noted(keys: Seq<(Owner, Seq<char>, SnapId)>, o: Owner, k: Seq<char>, id: SnapId) -> Seq<
    (Owner, Seq<char>, SnapId),
> {
    if has_key(keys, o, k) {
        keys.update(key_at(keys, o, k), (o, k, id))
    } else {
        keys.push((o, k, id))
    }
}

/// The key `k` of `o` forgotten when `id` is the newest with it.
pub open spec fn forgotten(keys: Seq<(Owner, Seq<char>, SnapId)>, o: Owner, k: Seq<char>, id: SnapId) -> Seq<
    (Owner, Seq<char>, SnapId),
> {
    if newest(keys, o, k) == Some(id) {
        keys.remove(key_at(keys, o, k))
    } else {
        keys
    }
}

/// Whether a newer request with `p`'s key was made after `p`.
pub open spec fn replaced_in<C, R>(keys: Seq<(Owner, Seq<char>, SnapId)>, p: PendingSnap<C, R>) -> bool {
    match p.key {
        Some(k) => match newest(keys, p.owner, k@) {
            Some(n) => n > p.id,
            None => false,
        },
        None => false,
    }
}

/// The items of `s` that `gone` does not take, in order.
pub open spec fn kept<T>(s: Seq<T>, gone: spec_fn(T) -> bool) -> Seq<T>
    decreases s.len(),
{
    if s.len() == 0 {
        s
    } else {
        let r = kept(s.drop_last(), gone);
        if gone(s.last()) {
            r
        } else {
            r.push(s.last())
        }
    }
}

/// The items of `s` that `gone` takes, in order.
pub open spec fn taken<T>(s: Seq<T>, gone: spec_fn(T) -> bool) -> Seq<T> {
    kept(s, |x: T| !gone(x))
}

pub proof fn lemma_kept<T>(s: Seq<T>, gone: spec_fn(T) -> bool)
    ensures
        kept(s, gone).len() <= s.len(),
        forall|i: int|
            0 <= i < kept(s, gone).len() ==> !gone(#[trigger] kept(s, gone)[i]) && exists|j: int|
                0 <= j < s.len() && s[j] == kept(s, gone)[i],
        forall|j: int| 0 <= j < s.len() && !gone(s[j]) ==> kept(s, gone).contains(#[trigger] s[j]),
    decreases s.len(),
{
    if s.len() > 0 {
        let t = s.drop_last();
        lemma_kept(t, gone);
        let r = kept(t, gone);
        assert forall|i: int| 0 <= i < kept(s, gone).len() implies !gone(#[trigger] kept(s, gone)[i]) && exists|j: int|
            0 <= j < s.len() && s[j] == kept(s, gone)[i] by {
            if i < r.len() {
                assert(kept(s, gone)[i] == r[i]);
                let j = choose|j: int| 0 <= j < t.len() && t[j] == r[i];
                assert(s[j] == t[j]);
            } else {
                assert(s[s.len() - 1] == kept(s, gone)[i]);
            }
        }
        assert forall|j: int| 0 <= j < s.len() && !gone(s[j]) implies kept(s, gone).contains(#[trigger] s[j]) by {
            if j < s.len() - 1 {
                assert(t[j] == s[j]);
                let k = choose|k: int| 0 <= k < r.len() && r[k] == t[j];
                if !gone(s.last()) {
                    assert(kept(s, gone)[k] == r[k]);
                }
            } else {
                assert(kept(s, gone)[kept(s, gone).len() - 1] == s[j]);
            }
        }
    }
}

/// Keeping some of a sequence keeps it ordered by `id`.
pub proof fn lemma_kept_ordered<T>(s: Seq<T>, gone: spec_fn(T) -> bool, id: spec_fn(T) -> int)
    requires
        forall|i: int, j: int| 0 <= i < j < s.len() ==> id(s[i]) < id(s[j]),
    ensures
        forall|i: int, j: int|
            0 <= i < j < kept(s, gone).len() ==> id(kept(s, gone)[i]) < id(kept(s, gone)[j]),
    decreases s.len(),
{
    if s.len() > 0 {
        let t = s.drop_last();
        lemma_kept_ordered(t, gone, id);
        lemma_kept(t, gone);
        let r = kept(t, gone);
        if !gone(s.last()) {
            assert forall|i: int, j: int| 0 <= i < j < kept(s, gone).len() implies id(kept(s, gone)[i]) < id(
                kept(s, gone)[j],
            ) by {
                assert(kept(s, gone)[i] == r[i]);
                if j == r.len() {
                    let k = choose|k: int| 0 <= k < t.len() && t[k] == r[i];
                    assert(s[k] == t[k]);
                } else {
                    assert(kept(s, gone)[j] == r[j]);
                }
            }
        }
    }
}

/// The requests of module VM `o` asked with key `k`.
pub open spec fn keyed<C, R>(o: Owner, k: Seq<char>) -> spec_fn(PendingSnap<C, R>) -> bool {
    |p: PendingSnap<C, R>| p.owner == o && (p.key matches Some(x) && x@ == k)
}

/// `s` answered `why` on the next tick, each with its charge given back.
pub open spec fn answered_as<C, R>(s: Seq<PendingSnap<C, R>>, why: Seq<char>) -> Seq<(PendingSnap<C, R>, Seq<char>)> {
    s.map_values(|p: PendingSnap<C, R>| (ended(p), why))
}

/// The requests with the thread that `gone` takes, answered `why` on the next tick.
pub open spec fn end_all<C, R>(m: SnapModel<C, R>, gone: spec_fn(PendingSnap<C, R>) -> bool, why: Seq<char>) -> SnapModel<C, R> {
    SnapModel { pending: kept(m.pending, gone), ready: m.ready + answered_as(taken(m.pending, gone), why), ..m }
}

pub proof fn lemma_end_all_wf<C, R>(m: SnapModel<C, R>, gone: spec_fn(PendingSnap<C, R>) -> bool, why: Seq<char>)
    requires
        model_wf(m),
    ensures
        model_wf(end_all(m, gone, why)),
{
    let ng = |x: PendingSnap<C, R>| !gone(x);
    let id = |p: PendingSnap<C, R>| p.id as int;
    lemma_kept(m.pending, gone);
    lemma_kept(m.pending, ng);
    lemma_kept_ordered(m.pending, gone, id);
    lemma_kept_ordered(m.pending, ng, id);
    let k = kept(m.pending, gone);
    let t = taken(m.pending, gone);
    let a = answered_as(t, why);
    let e = end_all(m, gone, why);
    assert(t == kept(m.pending, ng));
    assert forall|i: int| 0 <= i < a.len() implies a[i].0.id == t[i].id && (exists|j: int|
        0 <= j < m.pending.len() && m.pending[j] == #[trigger] t[i] && gone(m.pending[j])) by {
        assert(!ng(t[i]));
    }
    assert forall|i: int| 0 <= i < k.len() implies exists|j: int|
        0 <= j < m.pending.len() && m.pending[j] == #[trigger] k[i] && !gone(m.pending[j]) by {
        assert(!gone(k[i]));
    }
    assert forall|i: int| 0 <= i < e.pending.len() implies e.pending[i].id <= e.next_id by {
        let j = choose|j: int| 0 <= j < m.pending.len() && m.pending[j] == k[i] && !gone(m.pending[j]);
    }
    assert forall|i: int| 0 <= i < e.ready.len() implies e.ready[i].0.id <= e.next_id by {
        if i >= m.ready.len() {
            let j = choose|j: int|
                0 <= j < m.pending.len() && m.pending[j] == t[i - m.ready.len()] && gone(m.pending[j]);
        }
    }
    assert forall|i: int, j: int| 0 <= i < j < e.ready.len() implies e.ready[i].0.id != e.ready[j].0.id by {
        if j >= m.ready.len() {
            let jj = choose|q: int|
                0 <= q < m.pending.len() && m.pending[q] == t[j - m.ready.len()] && gone(m.pending[q]);
            if i < m.ready.len() {
                assert(e.ready[i] == m.ready[i]);
            } else {
                assert(id(t[i - m.ready.len()]) < id(t[j - m.ready.len()]));
            }
        }
    }
    assert forall|i: int, j: int| 0 <= i < e.ready.len() && 0 <= j < e.pending.len() implies e.ready[i].0.id
        != e.pending[j].id by {
        let jj = choose|q: int| 0 <= q < m.pending.len() && m.pending[q] == k[j] && !gone(m.pending[q]);
        if i < m.ready.len() {
            assert(e.ready[i] == m.ready[i]);
        } else {
            let ii = choose|q: int|
                0 <= q < m.pending.len() && m.pending[q] == t[i - m.ready.len()] && gone(m.pending[q]);
            if ii < jj {
                assert(m.pending[ii].id < m.pending[jj].id);
            } else if jj < ii {
                assert(m.pending[jj].id < m.pending[ii].id);
            }
        }
    }
}

/// How many of the indices below `n` `pred` holds for.
pub open spec fn count_index(n: int, pred: spec_fn(int) -> bool) -> nat
    decreases n,
{
    if n <= 0 {
        0
    } else {
        count_index(n - 1, pred) + if pred(n - 1) {
            1nat
        } else {
            0nat
        }
    }
}

/// The first index below `n` that `pred` holds for.
pub open spec fn first_index(n: int, pred: spec_fn(int) -> bool) -> Option<int>
    decreases n,
{
    if n <= 0 {
        None
    } else {
        match first_index(n - 1, pred) {
            Some(i) => Some(i),
            None => if pred(n - 1) {
                Some(n - 1)
            } else {
                None
            },
        }
    }
}

pub proof fn lemma_first_index(n: int, pred: spec_fn(int) -> bool)
    ensures
        first_index(n, pred) matches Some(i) ==> 0 <= i < n && pred(i),
        count_index(n, pred) <= if n < 0 { 0 } else { n },
    decreases n,
{
    if n > 0 {
        lemma_first_index(n - 1, pred);
    }
}

/// The module's change waits among `s`.
pub open spec fn my_wait<C, R>(s: Seq<PendingSnap<C, R>>, idx: usize) -> spec_fn(int) -> bool {
    |i: int| s[i].owner.idx == idx && s[i].change
}

/// The module's requests among `s` but the one at `w`.
pub open spec fn mine_but<C, R>(s: Seq<PendingSnap<C, R>>, idx: usize, w: Option<int>) -> spec_fn(int) -> bool {
    |i: int| s[i].owner.idx == idx && w != Some(i)
}

/// The requests of `s` but those at `w` and `a`.
pub open spec fn left_but(w: Option<int>, a: Option<int>) -> spec_fn(int) -> bool {
    |i: int| w != Some(i) && a != Some(i)
}

/// The change waits of `s` but those at `w` and `a`.
pub open spec fn waits_but<C, R>(s: Seq<PendingSnap<C, R>>, w: Option<int>, a: Option<int>) -> spec_fn(int) -> bool {
    |i: int| s[i].change && w != Some(i) && a != Some(i)
}

/// The module's oldest change wait, ended when a new one would make more than its share.
pub open spec fn wait_to_end<C, R>(s: Seq<PendingSnap<C, R>>, idx: usize, change: bool, lim: SnapLimits) -> Option<int> {
    if change && count_index(s.len() as int, my_wait(s, idx)) >= lim.waits_per_owner {
        first_index(s.len() as int, my_wait(s, idx))
    } else {
        None
    }
}

/// The module's oldest request of any kind but that wait, ended when a new one would make more
/// than its share.
pub open spec fn any_to_end<C, R>(s: Seq<PendingSnap<C, R>>, idx: usize, change: bool, lim: SnapLimits) -> Option<int> {
    let w = wait_to_end(s, idx, change, lim);
    if count_index(s.len() as int, mine_but(s, idx, w)) >= lim.per_owner {
        first_index(s.len() as int, mine_but(s, idx, w))
    } else {
        None
    }
}

pub open spec fn owner_waits_text(n: usize) -> Seq<char> {
    "too many change waits for this module ("@ + decimal(n as nat) + "); the oldest was ended"@
}

pub open spec fn owner_requests_text(n: usize) -> Seq<char> {
    "too many snapshot requests waiting for this module ("@ + decimal(n as nat) + "); the oldest was ended"@
}

pub open spec fn all_waits_text(n: usize) -> Seq<char> {
    "too many change waits in the whole application ("@ + decimal(n as nat) + "); this one was not started"@
}

pub open spec fn all_requests_text(n: usize) -> Seq<char> {
    "too many snapshot requests waiting in the whole application ("@ + decimal(n as nat) + "); this one was not taken"@
}

/// Why a new request is refused, counted as the application stands once the module's own ends
/// have freed their slots.
pub open spec fn room_refusal<C, R>(s: Seq<PendingSnap<C, R>>, idx: usize, change: bool, lim: SnapLimits) -> Option<Seq<char>> {
    let w = wait_to_end(s, idx, change, lim);
    let a = any_to_end(s, idx, change, lim);
    if change && count_index(s.len() as int, waits_but(s, w, a)) >= lim.waits {
        Some(all_waits_text(lim.waits))
    } else if count_index(s.len() as int, left_but(w, a)) >= lim.total {
        Some(all_requests_text(lim.total))
    } else {
        None
    }
}

pub open spec fn id_at<C, R>(s: Seq<PendingSnap<C, R>>, i: Option<int>) -> Option<SnapId> {
    match i {
        Some(k) => Some(s[k].id),
        None => None,
    }
}

pub open spec fn end_opt<C, R>(m: SnapModel<C, R>, id: Option<SnapId>, why: Seq<char>) -> SnapModel<C, R> {
    match id {
        Some(x) => end_model(m, x, why),
        None => m,
    }
}

/// The reasons of the requests ended, in the order they were ended.
pub open spec fn room_reasons<C, R>(s: Seq<PendingSnap<C, R>>, idx: usize, change: bool, lim: SnapLimits) -> Seq<Seq<char>> {
    let first: Seq<Seq<char>> = if wait_to_end(s, idx, change, lim) is Some {
        seq![owner_waits_text(lim.waits_per_owner)]
    } else {
        seq![]
    };
    if any_to_end(s, idx, change, lim) is Some {
        first.push(owner_requests_text(lim.per_owner))
    } else {
        first
    }
}

/// The state once the module's requests that make room are ended.
pub open spec fn room_model<C, R>(m: SnapModel<C, R>, idx: usize, change: bool, lim: SnapLimits) -> SnapModel<C, R> {
    let s = m.pending;
    let mid = end_opt(m, id_at(s, wait_to_end(s, idx, change, lim)), owner_waits_text(lim.waits_per_owner));
    end_opt(mid, id_at(s, any_to_end(s, idx, change, lim)), owner_requests_text(lim.per_owner))
}

/// An answer as contracts speak of it.
pub enum AnswerView {
    Picture { frame: Arc<Frame>, frames: u32, change: Option<ChangeInfo>, waited: u64 },
    Failed { why: Seq<char>, frames: u32, change: Option<ChangeInfo>, waited: u64 },
}

pub open spec fn answer_view(a: Answer) -> AnswerView {
    match a {
        Answer::Picture { frame, frames, change, waited } => AnswerView::Picture { frame, frames, change, waited },
        Answer::Failed { why, frames, change, waited } => AnswerView::Failed { why: why@, frames, change, waited },
    }
}

pub open spec fn answers_view<C, R>(s: Seq<(PendingSnap<C, R>, Answer)>) -> Seq<(PendingSnap<C, R>, AnswerView)> {
    s.map_values(|e: (PendingSnap<C, R>, Answer)| (e.0, answer_view(e.1)))
}

pub open spec fn no_change() -> ChangeInfo {
    ChangeInfo { changed: false, settled: false, rebased: false }
}

/// What a change wait answered without a comparison reports.
pub open spec fn change_of<C, R>(p: PendingSnap<C, R>) -> Option<ChangeInfo> {
    if p.change {
        Some(no_change())
    } else {
        None
    }
}

/// A request decided without the thread, answered: no picture, and how long it waited.
pub open spec fn ready_answer<C, R>(e: (PendingSnap<C, R>, Seq<char>), now: u64) -> (PendingSnap<C, R>, AnswerView) {
    (e.0, AnswerView::Failed { why: e.1, frames: 0, change: change_of(e.0), waited: now.saturating_sub(e.0.asked) })
}

pub open spec fn ready_answers<C, R>(s: Seq<(PendingSnap<C, R>, Seq<char>)>, now: u64) -> Seq<(PendingSnap<C, R>, AnswerView)> {
    s.map_values(|e: (PendingSnap<C, R>, Seq<char>)| ready_answer(e, now))
}

/// The thread's answer `d` for `p`.
pub open spec fn answer_of_done<C, R>(p: PendingSnap<C, R>, d: SnapDone) -> AnswerView {
    match d.outcome {
        SnapOutcome::Picture { frame, frames, change } => AnswerView::Picture {
            frame,
            frames,
            change,
            waited: frame.taken.saturating_sub(d.asked),
        },
        SnapOutcome::Failed { why, frames, change } => AnswerView::Failed {
            why: why@,
            frames,
            change,
            waited: d.ended.saturating_sub(d.asked),
        },
        SnapOutcome::Cancelled => AnswerView::Failed {
            why: crate::snapshot::CANCELLED@,
            frames: 0,
            change: change_of(p),
            waited: d.ended.saturating_sub(d.asked),
        },
    }
}

/// The thread's answers taken in order: each for a request still waiting takes it off the list
/// and answers it; one for a request no longer waiting is let go.
pub open spec fn run_done<C, R>(pending: Seq<PendingSnap<C, R>>, done: Seq<SnapDone>) -> (
    Seq<PendingSnap<C, R>>,
    Seq<(PendingSnap<C, R>, AnswerView)>,
)
    decreases done.len(),
{
    if done.len() == 0 {
        (pending, seq![])
    } else {
        let (p0, o0) = run_done(pending, done.drop_last());
        let d = done.last();
        if has_id(p0, d.id) {
            let i = index_of(p0, d.id);
            (p0.remove(i), o0.push((p0[i], answer_of_done(p0[i], d))))
        } else {
            (p0, o0)
        }
    }
}

/// Ids only grow along `s`, and none is past `top`.
pub open spec fn ascending<C, R>(s: Seq<PendingSnap<C, R>>, top: SnapId) -> bool {
    &&& forall|i: int, j: int| 0 <= i < j < s.len() ==> s[i].id < s[j].id
    &&& forall|i: int| 0 <= i < s.len() ==> s[i].id <= top
}

pub proof fn lemma_remove_ascending<C, R>(s: Seq<PendingSnap<C, R>>, top: SnapId, i: int)
    requires
        ascending(s, top),
        0 <= i < s.len(),
    ensures
        ascending(s.remove(i), top),
        s.remove(i).len() == s.len() - 1,
        forall|k: int| 0 <= k < s.remove(i).len() ==> #[trigger] s.remove(i)[k] == if k < i { s[k] } else { s[k + 1] },
{
    let r = s.remove(i);
    assert forall|k: int| 0 <= k < r.len() implies #[trigger] r[k] == if k < i { s[k] } else { s[k + 1] } by {}
    assert forall|a: int, b: int| 0 <= a < b < r.len() implies r[a].id < r[b].id by {
        let a0 = if a < i { a } else { a + 1 };
        let b0 = if b < i { b } else { b + 1 };
        assert(r[a] == s[a0]);
        assert(r[b] == s[b0]);
    }
    assert forall|a: int| 0 <= a < r.len() implies r[a].id <= top by {
        let a0 = if a < i { a } else { a + 1 };
        assert(r[a] == s[a0]);
    }
}

pub proof fn lemma_run_done<C, R>(pending: Seq<PendingSnap<C, R>>, done: Seq<SnapDone>, top: SnapId)
    requires
        ascending(pending, top),
    ensures
        ascending(run_done(pending, done).0, top),
        forall|k: int| 0 <= k < run_done(pending, done).0.len() ==> pending.contains(#[trigger] run_done(pending, done).0[k]),
        forall|k: int| 0 <= k < run_done(pending, done).1.len() ==> pending.contains(#[trigger] run_done(pending, done).1[k].0),
        forall|k: int, j: int| 0 <= k < run_done(pending, done).1.len() && 0 <= j < run_done(pending, done).0.len()
            ==> run_done(pending, done).1[k].0.id != run_done(pending, done).0[j].id,
        forall|k: int, j: int| 0 <= k < j < run_done(pending, done).1.len()
            ==> run_done(pending, done).1[k].0.id != run_done(pending, done).1[j].0.id,
    decreases done.len(),
{
    if done.len() > 0 {
        lemma_run_done(pending, done.drop_last(), top);
        let (p0, o0) = run_done(pending, done.drop_last());
        let d = done.last();
        if has_id(p0, d.id) {
            let i = index_of(p0, d.id);
            lemma_remove_ascending(p0, top, i);
            let r = run_done(pending, done);
            assert(r.0 == p0.remove(i));
            assert(r.1 == o0.push((p0[i], answer_of_done(p0[i], d))));
            assert forall|k: int| 0 <= k < r.0.len() implies pending.contains(#[trigger] r.0[k]) by {
                let j = if k < i { k } else { k + 1 };
                assert(r.0[k] == p0[j]);
                assert(pending.contains(p0[j]));
            }
            assert forall|k: int| 0 <= k < r.1.len() implies pending.contains(#[trigger] r.1[k].0) by {
                if k < o0.len() {
                    assert(r.1[k] == o0[k]);
                } else {
                    assert(pending.contains(p0[i]));
                }
            }
            assert forall|k: int, j: int| 0 <= k < r.1.len() && 0 <= j < r.0.len() implies r.1[k].0.id
                != r.0[j].id by {
                let jj = if j < i { j } else { j + 1 };
                assert(r.0[j] == p0[jj]);
                if k < o0.len() {
                    assert(r.1[k] == o0[k]);
                } else {
                    if jj < i {
                        assert(p0[jj].id < p0[i].id);
                    } else {
                        assert(p0[i].id < p0[jj].id);
                    }
                }
            }
            assert forall|k: int, j: int| 0 <= k < j < r.1.len() implies r.1[k].0.id != r.1[j].0.id by {
                if j == o0.len() {
                    assert(r.1[k] == o0[k]);
                    assert(o0[k].0.id != p0[i].id);
                } else {
                    assert(r.1[k] == o0[k]);
                    assert(r.1[j] == o0[j]);
                }
            }
        }
    }
}

/// Keeping some of a sequence keeps what held of every two items, in order.
pub proof fn lemma_kept_pairwise<T>(s: Seq<T>, gone: spec_fn(T) -> bool, rel: spec_fn(T, T) -> bool)
    requires
        forall|i: int, j: int| 0 <= i < j < s.len() ==> rel(s[i], s[j]),
    ensures
        forall|i: int, j: int| 0 <= i < j < kept(s, gone).len() ==> rel(kept(s, gone)[i], kept(s, gone)[j]),
    decreases s.len(),
{
    if s.len() > 0 {
        let t = s.drop_last();
        lemma_kept_pairwise(t, gone, rel);
        lemma_kept(t, gone);
        let r = kept(t, gone);
        if !gone(s.last()) {
            assert forall|i: int, j: int| 0 <= i < j < kept(s, gone).len() implies rel(kept(s, gone)[i], kept(s, gone)[j]) by {
                assert(kept(s, gone)[i] == r[i]);
                if j == r.len() {
                    let k = choose|k: int| 0 <= k < t.len() && t[k] == r[i];
                    assert(s[k] == t[k]);
                } else {
                    assert(kept(s, gone)[j] == r[j]);
                }
            }
        }
    }
}

/// The requests of module `idx`.
pub open spec fn of_module<C, R>(idx: usize) -> spec_fn(PendingSnap<C, R>) -> bool {
    |p: PendingSnap<C, R>| p.owner.idx == idx
}

pub open spec fn ready_of<C, R>(idx: usize) -> spec_fn((PendingSnap<C, R>, Seq<char>)) -> bool {
    |e: (PendingSnap<C, R>, Seq<char>)| e.0.owner.idx == idx
}

pub open spec fn key_of(idx: usize) -> spec_fn((Owner, Seq<char>, SnapId)) -> bool {
    |e: (Owner, Seq<char>, SnapId)| e.0.idx == idx
}

/// Everything of module `idx` gone: its requests, its answers not delivered yet, its keys.
pub open spec fn drop_model<C, R>(m: SnapModel<C, R>, idx: usize) -> SnapModel<C, R> {
    SnapModel {
        pending: kept(m.pending, of_module(idx)),
        ready: kept(m.ready, ready_of(idx)),
        keys: kept(m.keys, key_of(idx)),
        ..m
    }
}

/// What dropping module `idx` takes: its requests with the thread, oldest first, then its
/// answers not delivered yet, in order.
pub open spec fn dropped<C, R>(m: SnapModel<C, R>, idx: usize) -> Seq<PendingSnap<C, R>> {
    taken(m.pending, of_module(idx)) + taken(m.ready, ready_of(idx)).map_values(
        |e: (PendingSnap<C, R>, Seq<char>)| e.0,
    )
}

/// What a request a newer one with its key replaced is told instead of its answer.
pub open spec fn superseded_answer(a: AnswerView) -> AnswerView {
    match a {
        AnswerView::Picture { change, waited, .. } => AnswerView::Failed {
            why: SUPERSEDED@,
            frames: 0,
            change: match change {
                Some(_) => Some(no_change()),
                None => None,
            },
            waited,
        },
        AnswerView::Failed { change, waited, .. } => AnswerView::Failed {
            why: SUPERSEDED@,
            frames: 0,
            change: match change {
                Some(_) => Some(no_change()),
                None => None,
            },
            waited,
        },
    }
}

/// `p` delivered or dropped: its key forgotten when it was the newest with it.
pub open spec fn forget_model<C, R>(m: SnapModel<C, R>, p: PendingSnap<C, R>) -> SnapModel<C, R> {
    match p.key {
        Some(k) => SnapModel { keys: forgotten(m.keys, p.owner, k@, p.id), ..m },
        None => m,
    }
}

/// The request a new call makes, with the next id.
pub open spec fn new_request<C, R>(
    m: SnapModel<C, R>,
    owner: Owner,
    prio: Priority,
    key: Option<String>,
    change: bool,
    cancel: Arc<AtomicBool>,
    asked: u64,
    cb: C,
    res: Option<R>,
) -> PendingSnap<C, R> {
    PendingSnap { id: (m.next_id + 1) as u64, owner, prio, key, change, cancel, asked, cb, res }
}

/// The state once a new request `p` has its id and key: a newer request with its key is the
/// newest whether or not it can be taken.
pub open spec fn keyed_model<C, R>(m: SnapModel<C, R>, p: PendingSnap<C, R>) -> SnapModel<C, R> {
    let m1 = SnapModel { next_id: p.id, ..m };
    match p.key {
        Some(k) => {
            let m2 = end_all(m1, keyed(p.owner, k@), SUPERSEDED@);
            SnapModel { keys: noted(m2.keys, p.owner, k@, p.id), ..m2 }
        },
        None => m1,
    }
}

/// A new request `p` for `rect`: answered on the next tick when its region gave a reason, or
/// when the application refuses it (its charge given back); otherwise room is made for it and
/// it goes to the thread.
pub open spec fn asked_model<C, R>(m: SnapModel<C, R>, p: PendingSnap<C, R>, rect: Result<Rect, Seq<char>>, lim: SnapLimits) -> SnapModel<C, R> {
    let m3 = keyed_model(m, p);
    match rect {
        Err(why) => SnapModel { ready: m3.ready.push((p, why)), ..m3 },
        Ok(_) => match room_refusal(m3.pending, p.owner.idx, p.change, lim) {
            Some(why) => SnapModel { ready: m3.ready.push((ended(p), why)), ..m3 },
            None => {
                let m4 = room_model(m3, p.owner.idx, p.change, lim);
                SnapModel { pending: m4.pending.push(p), ..m4 }
            },
        },
    }
}

/// Where a new request's picture is taken: its rectangle when it went to the thread.
pub open spec fn asked_taken<C, R>(m: SnapModel<C, R>, p: PendingSnap<C, R>, rect: Result<Rect, Seq<char>>, lim: SnapLimits) -> Option<Rect> {
    match rect {
        Err(_) => None,
        Ok(x) => if room_refusal(keyed_model(m, p).pending, p.owner.idx, p.change, lim) is None {
            Some(x)
        } else {
            None
        },
    }
}

/// How many requests a new one ended: those its key replaced, and those making room for it.
pub open spec fn asked_ended<C, R>(m: SnapModel<C, R>, p: PendingSnap<C, R>, rect: Result<Rect, Seq<char>>, lim: SnapLimits) -> nat {
    let replaced: nat = match p.key {
        Some(k) => taken(m.pending, keyed(p.owner, k@)).len(),
        None => 0,
    };
    let s = keyed_model(m, p).pending;
    match rect {
        Err(_) => replaced,
        Ok(_) => match room_refusal(s, p.owner.idx, p.change, lim) {
            Some(_) => replaced,
            None => replaced + room_reasons(s, p.owner.idx, p.change, lim).len(),
        },
    }
}

/// Every request is older than `t`.
pub open spec fn all_below<C, R>(m: SnapModel<C, R>, t: SnapId) -> bool {
    &&& forall|i: int| 0 <= i < m.pending.len() ==> m.pending[i].id < t
    &&& forall|i: int| 0 <= i < m.ready.len() ==> m.ready[i].0.id < t
}

pub proof fn lemma_below_end_all<C, R>(m: SnapModel<C, R>, gone: spec_fn(PendingSnap<C, R>) -> bool, why: Seq<char>, t: SnapId)
    requires
        all_below(m, t),
    ensures
        all_below(end_all(m, gone, why), t),
{
    lemma_kept(m.pending, gone);
    lemma_kept(m.pending, |x: PendingSnap<C, R>| !gone(x));
    let e = end_all(m, gone, why);
    let tk = taken(m.pending, gone);
    assert(tk == kept(m.pending, |x: PendingSnap<C, R>| !gone(x)));
    assert forall|i: int| 0 <= i < e.pending.len() implies e.pending[i].id < t by {
        let j = choose|j: int| 0 <= j < m.pending.len() && m.pending[j] == kept(m.pending, gone)[i];
    }
    assert forall|i: int| 0 <= i < e.ready.len() implies e.ready[i].0.id < t by {
        if i >= m.ready.len() {
            let k = i - m.ready.len();
            assert(e.ready[i].0 == ended(tk[k]));
            let j = choose|j: int| 0 <= j < m.pending.len() && m.pending[j] == tk[k];
        }
    }
}

pub proof fn lemma_below_end_model<C, R>(m: SnapModel<C, R>, id: SnapId, why: Seq<char>, t: SnapId)
    requires
        all_below(m, t),
    ensures
        all_below(end_model(m, id, why), t),
{
    if has_id(m.pending, id) {
        let i = index_of(m.pending, id);
        let e = end_model(m, id, why);
        assert forall|k: int| 0 <= k < e.pending.len() implies e.pending[k].id < t by {
            let k0 = if k < i { k } else { k + 1 };
            assert(e.pending[k] == m.pending[k0]);
        }
    }
}

pub proof fn lemma_push_ready_wf<C, R>(m: SnapModel<C, R>, q: PendingSnap<C, R>, why: Seq<char>)
    requires
        model_wf(m),
        all_below(m, q.id),
        q.id <= m.next_id,
    ensures
        model_wf(SnapModel { ready: m.ready.push((q, why)), ..m }),
        all_below(m, q.id),
{
    let f = SnapModel { ready: m.ready.push((q, why)), ..m };
    assert forall|a: int, b: int| 0 <= a < b < f.ready.len() implies f.ready[a].0.id != f.ready[b].0.id by {
        if b == f.ready.len() - 1 {
            assert(f.ready[a] == m.ready[a]);
        }
    }
    assert forall|a: int, b: int| 0 <= a < f.ready.len() && 0 <= b < f.pending.len() implies f.ready[a].0.id
        != f.pending[b].id by {
        if a < f.ready.len() - 1 {
            assert(f.ready[a] == m.ready[a]);
        }
    }
    assert forall|a: int| 0 <= a < f.ready.len() implies f.ready[a].0.id <= f.next_id by {
        if a < f.ready.len() - 1 {
            assert(f.ready[a] == m.ready[a]);
        }
    }
}

pub proof fn lemma_push_pending_wf<C, R>(m: SnapModel<C, R>, p: PendingSnap<C, R>)
    requires
        model_wf(m),
        all_below(m, p.id),
        p.id <= m.next_id,
    ensures
        model_wf(SnapModel { pending: m.pending.push(p), ..m }),
{
    let f = SnapModel { pending: m.pending.push(p), ..m };
    assert forall|a: int, b: int| 0 <= a < b < f.pending.len() implies f.pending[a].id < f.pending[b].id by {
        if b == f.pending.len() - 1 {
            assert(f.pending[a] == m.pending[a]);
        }
    }
    assert forall|a: int, b: int| 0 <= a < f.ready.len() && 0 <= b < f.pending.len() implies f.ready[a].0.id
        != f.pending[b].id by {
        if b < f.pending.len() - 1 {
            assert(f.pending[b] == m.pending[b]);
        }
    }
    assert forall|a: int| 0 <= a < f.pending.len() implies f.pending[a].id <= f.next_id by {
        if a < f.pending.len() - 1 {
            assert(f.pending[a] == m.pending[a]);
        }
    }
}

/// What is kept and what is taken make up the whole.
pub proof fn lemma_split_len<T>(s: Seq<T>, gone: spec_fn(T) -> bool)
    ensures
        kept(s, gone).len() + taken(s, gone).len() == s.len(),
    decreases s.len(),
{
    if s.len() > 0 {
        lemma_split_len(s.drop_last(), gone);
    }
}

/// Making room ends no more requests than there are.
pub proof fn lemma_room_reasons_len<C, R>(s: Seq<PendingSnap<C, R>>, idx: usize, change: bool, lim: SnapLimits)
    ensures
        room_reasons(s, idx, change, lim).len() <= s.len(),
{
    let w = wait_to_end(s, idx, change, lim);
    lemma_first_index(s.len() as int, my_wait(s, idx));
    lemma_first_index(s.len() as int, mine_but(s, idx, w));
}

pub open spec fn rect_view(rect: Result<Rect, String>) -> Result<Rect, Seq<char>> {
    match rect {
        Ok(r) => Ok(r),
        Err(w) => Err(w@),
    }
}

/// What a new request became: its id; its rectangle when it went to the capture thread (`None`
/// when it is answered on the next tick); and how many requests it ended, which the thread is
/// woken for.
pub struct Asked {
    pub id: SnapId,
    pub taken: Option<Rect>,
    pub ended: usize,
}

pub open spec fn ready_view<C, R>(s: Seq<(PendingSnap<C, R>, String)>) -> Seq<(PendingSnap<C, R>, Seq<char>)> {
    s.map_values(|e: (PendingSnap<C, R>, String)| (e.0, e.1@))
}

pub open spec fn keys_view(s: Seq<(Owner, String, SnapId)>) -> Seq<(Owner, Seq<char>, SnapId)> {
    s.map_values(|e: (Owner, String, SnapId)| (e.0, e.1@, e.2))
}

/// Tells the capture thread that nobody waits for this request's answer any more.
fn tell_stop(cancel: &Arc<AtomicBool>) {
    cancel.store(true, Ordering::Release);
}

impl SnapLimits {
    /// What the module's oldest change wait is answered when a new one ends it.
    pub fn owner_waits_ended(&self) -> (r: String)
        ensures
            r@ == owner_waits_text(self.waits_per_owner),
    {
        let mut r = <String as StringExecFns>::from_str("too many change waits for this module (");
        r.append(decimal_text(self.waits_per_owner as u64).as_str());
        r.append("); the oldest was ended");
        r
    }

    /// What the module's oldest request is answered when a new one ends it.
    pub fn owner_requests_ended(&self) -> (r: String)
        ensures
            r@ == owner_requests_text(self.per_owner),
    {
        let mut r = <String as StringExecFns>::from_str("too many snapshot requests waiting for this module (");
        r.append(decimal_text(self.per_owner as u64).as_str());
        r.append("); the oldest was ended");
        r
    }

    /// What a change wait is answered when the application has no room for another.
    pub fn all_waits_refused(&self) -> (r: String)
        ensures
            r@ == all_waits_text(self.waits),
    {
        let mut r = <String as StringExecFns>::from_str("too many change waits in the whole application (");
        r.append(decimal_text(self.waits as u64).as_str());
        r.append("); this one was not started");
        r
    }

    /// What a request is answered when the application has no room for another.
    pub fn all_requests_refused(&self) -> (r: String)
        ensures
            r@ == all_requests_text(self.total),
    {
        let mut r = <String as StringExecFns>::from_str("too many snapshot requests waiting in the whole application (");
        r.append(decimal_text(self.total as u64).as_str());
        r.append("); this one was not taken");
        r
    }
}

/// `x` added to the increasing list `v`, unless it is there.
fn insert_sorted(v: &mut Vec<usize>, x: usize)
    requires
        forall|i: int, j: int| 0 <= i < j < old(v)@.len() ==> old(v)@[i] < old(v)@[j],
    ensures
        forall|i: int, j: int| 0 <= i < j < final(v)@.len() ==> final(v)@[i] < final(v)@[j],
        forall|y: usize| final(v)@.contains(y) <==> (old(v)@.contains(y) || y == x),
{
    let mut j: usize = 0;
    while j < v.len() && v[j] < x
        invariant
            j <= v@.len(),
            v@ == old(v)@,
            forall|k: int| 0 <= k < j ==> v@[k] < x,
        decreases v@.len() - j,
    {
        j += 1;
    }
    if j < v.len() && v[j] == x {
        proof {
            assert(v@[j as int] == x);
            assert(v@.contains(x));
        }
        return;
    }
    let ghost before = v@;
    v.insert(j, x);
    proof {
        assert forall|a: int, b: int| 0 <= a < b < v@.len() implies v@[a] < v@[b] by {
            if a < j && b < j {
                assert(v@[a] == before[a] && v@[b] == before[b]);
            } else if a < j && b == j {
            } else if a < j {
                assert(v@[a] == before[a] && v@[b] == before[b - 1]);
                assert(before[a] < before[b - 1]);
            } else if a == j {
                assert(v@[b] == before[b - 1]);
                assert(before[j as int] > x);
                if b - 1 > j {
                    assert(before[j as int] < before[b - 1]);
                }
            } else {
                assert(v@[a] == before[a - 1] && v@[b] == before[b - 1]);
            }
        }
        assert(v@ == before.insert(j as int, x));
        assert(before == old(v)@);
        assert forall|y: usize| #[trigger] v@.contains(y) <==> (old(v)@.contains(y) || y == x) by {
            if v@.contains(y) {
                let k = choose|k: int| 0 <= k < v@.len() && v@[k] == y;
                if k < j {
                    assert(before[k] == y);
                    assert(before.contains(y));
                } else if k > j {
                    assert(before[k - 1] == y);
                    assert(before.contains(y));
                }
            }
            if y == x {
                assert(v@[j as int] == x);
            } else if before.contains(y) {
                let k = choose|k: int| 0 <= k < before.len() && before[k] == y;
                if k < j {
                    assert(v@[k] == y);
                } else {
                    assert(v@[k + 1] == y);
                }
            }
        }
    }
}

impl<C, R> View for SnapState<C, R> {
    type V = SnapModel<C, R>;

    closed spec fn view(&self) -> SnapModel<C, R> {
        SnapModel {
            pending: self.pending@,
            ready: ready_view(self.ready@),
            keys: keys_view(self.newest_key@),
            next_id: self.next_id,
        }
    }
}

impl<C, R> SnapState<C, R> {
    pub closed spec fn limits(&self) -> SnapLimits {
        self.limits
    }

    pub open spec fn wf(&self) -> bool {
        model_wf(self@)
    }

    /// Nothing waits, and nothing was asked yet.
    pub fn new(limits: SnapLimits) -> (st: Self)
        ensures
            st@.pending.len() == 0,
            st@.ready.len() == 0,
            st@.keys.len() == 0,
            st@.next_id == 0,
            st.limits() == limits,
            st.wf(),
    {
        let st = SnapState { pending: Vec::new(), ready: Vec::new(), newest_key: Vec::new(), next_id: 0, limits };
        proof {
            assert(st@.ready =~= Seq::<(PendingSnap<C, R>, Seq<char>)>::empty());
            assert(st@.keys =~= Seq::<(Owner, Seq<char>, SnapId)>::empty());
        }
        st
    }

    /// Whether any request waits for its answer.
    pub fn has_pending(&self) -> (r: bool)
        ensures
            r == (self@.pending.len() > 0 || self@.ready.len() > 0),
    {
        self.pending.len() > 0 || self.ready.len() > 0
    }

    /// Whether module `idx` has a request with the thread.
    pub fn has_pending_for(&self, idx: usize) -> (r: bool)
        ensures
            r == exists|i: int| 0 <= i < self@.pending.len() && self@.pending[i].owner.idx == idx,
    {
        let mut i: usize = 0;
        while i < self.pending.len()
            invariant
                i <= self.pending@.len(),
                forall|k: int| 0 <= k < i ==> self.pending@[k].owner.idx != idx,
            decreases self.pending@.len() - i,
        {
            if self.pending[i].owner.idx == idx {
                return true;
            }
            i += 1;
        }
        false
    }

    /// Where `o`'s key `k` is remembered.
    fn find_key(&self, o: Owner, k: &str) -> (r: Option<usize>)
        requires
            self.wf(),
        ensures
            match r {
                Some(i) => i < self@.keys.len() && has_key(self@.keys, o, k@) && key_at(self@.keys, o, k@) == i,
                None => !has_key(self@.keys, o, k@),
            },
    {
        let mut i: usize = 0;
        while i < self.newest_key.len()
            invariant
                i <= self.newest_key@.len(),
                self.wf(),
                forall|j: int| 0 <= j < i ==> !(self@.keys[j].0 == o && self@.keys[j].1 == k@),
            decreases self.newest_key@.len() - i,
        {
            if self.newest_key[i].0 == o && same_text(self.newest_key[i].1.as_str(), k) {
                proof {
                    let j = key_at(self@.keys, o, k@);
                    assert(self@.keys[i as int].0 == o && self@.keys[i as int].1 == k@);
                    assert(self@.keys[j].0 == o && self@.keys[j].1 == k@);
                    assert(j == i);
                }
                return Some(i);
            }
            i += 1;
        }
        None
    }

    /// `p` is the newest request of its module VM with its key.
    fn note_key(&mut self, p: &PendingSnap<C, R>)
        requires
            old(self).wf(),
        ensures
            final(self)@ == (match p.key {
                Some(k) => SnapModel { keys: noted(old(self)@.keys, p.owner, k@, p.id), ..old(self)@ },
                None => old(self)@,
            }),
            final(self).wf(),
            final(self).limits() == old(self).limits(),
    {
        if let Some(k) = &p.key {
            let ghost before = self@;
            match self.find_key(p.owner, k.as_str()) {
                Some(i) => {
                    self.newest_key.set(i, (p.owner, k.clone(), p.id));
                    proof {
                        assert(keys_view(self.newest_key@) =~= noted(before.keys, p.owner, k@, p.id));
                    }
                },
                None => {
                    self.newest_key.push((p.owner, k.clone(), p.id));
                    proof {
                        assert(keys_view(self.newest_key@) =~= noted(before.keys, p.owner, k@, p.id));
                    }
                },
            }
        }
    }

    /// Whether a newer request with `p`'s key was made after `p`, so `p`'s answer, not delivered
    /// yet, is superseded.
    fn replaced(&self, p: &PendingSnap<C, R>) -> (r: bool)
        requires
            self.wf(),
        ensures
            r == replaced_in(self@.keys, *p),
    {
        match &p.key {
            None => false,
            Some(k) => match self.find_key(p.owner, k.as_str()) {
                Some(i) => self.newest_key[i].2 > p.id,
                None => false,
            },
        }
    }

    /// `p` was delivered or dropped: when it was the newest with its key, the key is forgotten.
    fn forget_key(&mut self, p: &PendingSnap<C, R>)
        requires
            old(self).wf(),
        ensures
            final(self)@ == (match p.key {
                Some(k) => SnapModel { keys: forgotten(old(self)@.keys, p.owner, k@, p.id), ..old(self)@ },
                None => old(self)@,
            }),
            final(self).wf(),
            final(self).limits() == old(self).limits(),
    {
        if let Some(k) = &p.key {
            let ghost before = self@;
            match self.find_key(p.owner, k.as_str()) {
                Some(i) => {
                    if self.newest_key[i].2 == p.id {
                        self.newest_key.remove(i);
                        proof {
                            assert(keys_view(self.newest_key@) =~= forgotten(before.keys, p.owner, k@, p.id));
                        }
                    }
                },
                None => {},
            }
        }
    }

    /// Latest wins per key: `owner`'s requests with `key` are answered [`SUPERSEDED`] on the next
    /// tick, oldest first — also one whose picture was already taken. How many were ended.
    pub fn supersede(&mut self, owner: Owner, key: &str) -> (n: usize)
        requires
            old(self).wf(),
        ensures
            final(self)@ == end_all(old(self)@, keyed(owner, key@), SUPERSEDED@),
            n == taken(old(self)@.pending, keyed::<C, R>(owner, key@)).len(),
            final(self).wf(),
            final(self).limits() == old(self).limits(),
    {
        let ghost orig = self@;
        let ghost g = keyed::<C, R>(owner, key@);
        let mut rest: Vec<PendingSnap<C, R>> = Vec::new();
        std::mem::swap(&mut rest, &mut self.pending);
        let count = rest.len();
        let ghost total = rest@.len();
        let mut n: usize = 0;
        proof {
            assert(orig.pending.take(0) =~= Seq::<PendingSnap<C, R>>::empty());
            assert(rest@.subrange(0, total as int) =~= rest@);
            assert(ready_view(self.ready@) =~= orig.ready + answered_as(taken(orig.pending.take(0), g), SUPERSEDED@));
        }
        while rest.len() > 0
            invariant
                total == orig.pending.len(),
                total == count,
                rest@.len() <= total,
                rest@ == orig.pending.subrange(total - rest@.len(), total as int),
                self.pending@ == kept(orig.pending.take(total - rest@.len()), g),
                ready_view(self.ready@) == orig.ready + answered_as(taken(orig.pending.take(total - rest@.len()), g), SUPERSEDED@),
                n == taken(orig.pending.take(total - rest@.len()), g).len(),
                n <= total - rest@.len(),
                keys_view(self.newest_key@) == orig.keys,
                self.next_id == orig.next_id,
                self.limits == old(self).limits,
                g == keyed::<C, R>(owner, key@),
            decreases rest@.len(),
        {
            let ghost k = total - rest@.len();
            let ghost before_ready = self.ready@;
            let p = rest.remove(0);
            proof {
                assert(p == orig.pending[k]);
                assert(orig.pending.take(k + 1).drop_last() =~= orig.pending.take(k));
                assert(orig.pending.take(k + 1).last() == orig.pending[k]);
                assert(rest@ =~= orig.pending.subrange(k + 1, total as int));
                lemma_kept(orig.pending.take(k), |x: PendingSnap<C, R>| !g(x));
            }
            let hit = p.owner == owner && match &p.key {
                Some(x) => same_text(x.as_str(), key),
                None => false,
            };
            if hit {
                let mut q = p;
                q.res = None;
                tell_stop(&q.cancel);
                let ghost qq = q;
                self.ready.push((q, <String as StringExecFns>::from_str(SUPERSEDED)));
                n += 1;
                proof {
                    assert(g(p));
                    assert(qq == ended(p));
                    let t0 = taken(orig.pending.take(k), g);
                    assert(taken(orig.pending.take(k + 1), g) == t0.push(p));
                    assert(answered_as(t0.push(p), SUPERSEDED@) =~= answered_as(t0, SUPERSEDED@).push((ended(p), SUPERSEDED@)));
                    assert(ready_view(self.ready@) =~= ready_view(before_ready).push((ended(p), SUPERSEDED@)));
                }
            } else {
                self.pending.push(p);
                proof {
                    assert(!g(p));
                    assert(taken(orig.pending.take(k + 1), g) == taken(orig.pending.take(k), g));
                }
            }
        }
        proof {
            assert(orig.pending.take(total as int) =~= orig.pending);
            lemma_end_all_wf(orig, g, SUPERSEDED@);
        }
        n
    }

    /// Room for a new request of `owner`: the module's oldest change wait ends when a new one
    /// would make more than its share, and its oldest request of any kind likewise — unless the
    /// whole application's limits, counted as they stand once those have ended, refuse the new
    /// one; then nothing of the module's is ended. The reasons of the requests ended, and the
    /// reason the new one is refused.
    #[verifier::spinoff_prover]
    pub fn make_room(&mut self, owner: Owner, change: bool) -> (r: (Vec<String>, Option<String>))
        requires
            old(self).wf(),
        ensures
            final(self).wf(),
            final(self).limits() == old(self).limits(),
            match room_refusal(old(self)@.pending, owner.idx, change, old(self).limits()) {
                Some(why) => {
                    &&& final(self)@ == old(self)@
                    &&& r.0@.len() == 0
                    &&& r.1 matches Some(x) && x@ == why
                },
                None => {
                    &&& final(self)@ == room_model(old(self)@, owner.idx, change, old(self).limits())
                    &&& r.0@.map_values(|x: String| x@) == room_reasons(old(self)@.pending, owner.idx, change, old(self).limits())
                    &&& r.1 is None
                },
            },
    {
        let ghost m = self@;
        let ghost s = self@.pending;
        let lim = self.limits;
        let idx = owner.idx;
        let n = self.pending.len();
        let mut my_waits: usize = 0;
        let mut first_wait: Option<usize> = None;
        let mut i: usize = 0;
        while i < n
            invariant
                n == s.len(),
                s == self.pending@,
                i <= n,
                my_waits == count_index(i as int, my_wait(s, idx)),
                my_waits <= i,
                first_wait matches Some(k) ==> first_index(i as int, my_wait(s, idx)) == Some(k as int),
                first_wait is None ==> first_index(i as int, my_wait(s, idx)) is None,
            decreases n - i,
        {
            if self.pending[i].owner.idx == idx && self.pending[i].change {
                my_waits += 1;
                if first_wait.is_none() {
                    first_wait = Some(i);
                }
            }
            i += 1;
        }
        let w: Option<usize> = if change && my_waits >= lim.waits_per_owner {
            first_wait
        } else {
            None
        };
        let ghost wi: Option<int> = match w {
            Some(k) => Some(k as int),
            None => None,
        };
        assert(wi == wait_to_end(s, idx, change, lim));
        let mut mine: usize = 0;
        let mut first_mine: Option<usize> = None;
        i = 0;
        while i < n
            invariant
                n == s.len(),
                s == self.pending@,
                i <= n,
                mine == count_index(i as int, mine_but(s, idx, wi)),
                mine <= i,
                first_mine matches Some(k) ==> first_index(i as int, mine_but(s, idx, wi)) == Some(k as int),
                first_mine is None ==> first_index(i as int, mine_but(s, idx, wi)) is None,
                wi == (match w {
                    Some(k) => Some(k as int),
                    None => None::<int>,
                }),
            decreases n - i,
        {
            let other = match w {
                Some(k) => k != i,
                None => true,
            };
            if self.pending[i].owner.idx == idx && other {
                mine += 1;
                if first_mine.is_none() {
                    first_mine = Some(i);
                }
            }
            i += 1;
        }
        let a: Option<usize> = if mine >= lim.per_owner {
            first_mine
        } else {
            None
        };
        let ghost ai: Option<int> = match a {
            Some(k) => Some(k as int),
            None => None,
        };
        assert(ai == any_to_end(s, idx, change, lim));
        let mut waits: usize = 0;
        let mut total: usize = 0;
        i = 0;
        while i < n
            invariant
                n == s.len(),
                s == self.pending@,
                i <= n,
                waits == count_index(i as int, waits_but(s, wi, ai)),
                total == count_index(i as int, left_but(wi, ai)),
                waits <= i,
                total <= i,
                wi == (match w {
                    Some(k) => Some(k as int),
                    None => None::<int>,
                }),
                ai == (match a {
                    Some(k) => Some(k as int),
                    None => None::<int>,
                }),
            decreases n - i,
        {
            let other = match w {
                Some(k) => k != i,
                None => true,
            } && match a {
                Some(k) => k != i,
                None => true,
            };
            if other {
                total += 1;
                if self.pending[i].change {
                    waits += 1;
                }
            }
            i += 1;
        }
        if change && waits >= lim.waits {
            return (Vec::new(), Some(lim.all_waits_refused()));
        }
        if total >= lim.total {
            return (Vec::new(), Some(lim.all_requests_refused()));
        }
        proof {
            lemma_first_index(n as int, my_wait(s, idx));
            lemma_first_index(n as int, mine_but(s, idx, wi));
        }
        let wid: Option<SnapId> = match w {
            Some(k) => Some(self.pending[k].id),
            None => None,
        };
        let aid: Option<SnapId> = match a {
            Some(k) => Some(self.pending[k].id),
            None => None,
        };
        let mut ended: Vec<String> = Vec::new();
        if let Some(id) = wid {
            let why = lim.owner_waits_ended();
            self.end(id, why);
            ended.push(lim.owner_waits_ended());
        }
        let ghost mid = self@;
        assert(mid == end_opt(m, id_at(s, wi), owner_waits_text(lim.waits_per_owner)));
        if let Some(id) = aid {
            let why = lim.owner_requests_ended();
            self.end(id, why);
            ended.push(lim.owner_requests_ended());
        }
        proof {
            assert(ended@.map_values(|x: String| x@) =~= room_reasons(s, idx, change, lim));
        }
        (ended, None)
    }

    /// Takes every request of module `idx` off the lists and tells the thread to stop on each:
    /// disabled, reloaded, removed or rolled back, its callbacks are never called. Its keys are
    /// forgotten.
    #[verifier::spinoff_prover]
    pub fn drop_owner(&mut self, idx: usize) -> (gone: Vec<PendingSnap<C, R>>)
        requires
            old(self).wf(),
        ensures
            final(self)@ == drop_model(old(self)@, idx),
            gone@ == dropped(old(self)@, idx),
            final(self).wf(),
            final(self).limits() == old(self).limits(),
    {
        let ghost orig = self@;
        let mut gone: Vec<PendingSnap<C, R>> = Vec::new();
        let mut rest: Vec<PendingSnap<C, R>> = Vec::new();
        std::mem::swap(&mut rest, &mut self.pending);
        let ghost sp = rest@;
        let ghost np = rest@.len();
        let ghost g = of_module::<C, R>(idx);
        proof {
            assert(sp.take(0) =~= Seq::<PendingSnap<C, R>>::empty());
            assert(rest@.subrange(0, np as int) =~= rest@);
        }
        while rest.len() > 0
            invariant
                np == sp.len(),
                sp == orig.pending,
                rest@.len() <= np,
                rest@ == sp.subrange(np - rest@.len(), np as int),
                self.pending@ == kept(sp.take(np - rest@.len()), g),
                gone@ == taken(sp.take(np - rest@.len()), g),
                ready_view(self.ready@) == orig.ready,
                keys_view(self.newest_key@) == orig.keys,
                self.next_id == orig.next_id,
                self.limits == old(self).limits,
                g == of_module::<C, R>(idx),
            decreases rest@.len(),
        {
            let ghost k = np - rest@.len();
            let p = rest.remove(0);
            proof {
                assert(p == sp[k]);
                assert(sp.take(k + 1).drop_last() =~= sp.take(k));
                assert(sp.take(k + 1).last() == sp[k]);
                assert(rest@ =~= sp.subrange(k + 1, np as int));
            }
            if p.owner.idx == idx {
                tell_stop(&p.cancel);
                gone.push(p);
            } else {
                self.pending.push(p);
            }
        }
        proof {
            assert(sp.take(np as int) =~= sp);
        }
        let ghost gp = gone@;
        let mut rest_r: Vec<(PendingSnap<C, R>, String)> = Vec::new();
        std::mem::swap(&mut rest_r, &mut self.ready);
        let ghost sr = ready_view(rest_r@);
        let ghost nr = rest_r@.len();
        let ghost gr = ready_of::<C, R>(idx);
        let ghost pick = |e: (PendingSnap<C, R>, Seq<char>)| e.0;
        proof {
            assert(sr.take(0) =~= Seq::<(PendingSnap<C, R>, Seq<char>)>::empty());
            assert(ready_view(rest_r@).subrange(0, nr as int) =~= ready_view(rest_r@));
            assert(ready_view(self.ready@) =~= Seq::<(PendingSnap<C, R>, Seq<char>)>::empty());
            assert(taken(sr.take(0), gr).map_values(pick) =~= Seq::<PendingSnap<C, R>>::empty());
            assert(gone@ =~= gp + taken(sr.take(0), gr).map_values(pick));
        }
        while rest_r.len() > 0
            invariant
                nr == sr.len(),
                sr == orig.ready,
                rest_r@.len() <= nr,
                ready_view(rest_r@) == sr.subrange(nr - rest_r@.len(), nr as int),
                ready_view(self.ready@) == kept(sr.take(nr - rest_r@.len()), gr),
                gone@ == gp + taken(sr.take(nr - rest_r@.len()), gr).map_values(pick),
                gr == ready_of::<C, R>(idx),
                pick == (|e: (PendingSnap<C, R>, Seq<char>)| e.0),
                self.pending@ == kept(orig.pending, of_module::<C, R>(idx)),
                keys_view(self.newest_key@) == orig.keys,
                self.next_id == orig.next_id,
                self.limits == old(self).limits,
            decreases rest_r@.len(),
        {
            let ghost k = nr - rest_r@.len();
            let ghost before = ready_view(rest_r@);
            let ghost before_ready = self.ready@;
            let ghost before_gone = gone@;
            let e = rest_r.remove(0);
            let ghost ev = (e.0, e.1@);
            proof {
                assert(before[0] == ev);
                assert(sr[k] == ev);
                assert(sr.take(k + 1).drop_last() =~= sr.take(k));
                assert(sr.take(k + 1).last() == ev);
                assert(ready_view(rest_r@) =~= before.subrange(1, before.len() as int));
                assert(ready_view(rest_r@) =~= sr.subrange(k + 1, nr as int));
            }
            if e.0.owner.idx == idx {
                let (p, _why) = e;
                tell_stop(&p.cancel);
                gone.push(p);
                proof {
                    assert(gr(ev));
                    let t0 = taken(sr.take(k), gr);
                    assert(taken(sr.take(k + 1), gr) == t0.push(ev));
                    assert(t0.push(ev).map_values(pick) =~= t0.map_values(pick).push(ev.0));
                    assert(gone@ =~= before_gone.push(ev.0));
                }
            } else {
                self.ready.push(e);
                proof {
                    assert(!gr(ev));
                    assert(ready_view(self.ready@) =~= ready_view(before_ready).push(ev));
                    assert(taken(sr.take(k + 1), gr) == taken(sr.take(k), gr));
                }
            }
        }
        proof {
            assert(sr.take(nr as int) =~= sr);
        }
        let mut rest_k: Vec<(Owner, String, SnapId)> = Vec::new();
        std::mem::swap(&mut rest_k, &mut self.newest_key);
        let ghost sk = keys_view(rest_k@);
        let ghost nk = rest_k@.len();
        let ghost gk = key_of(idx);
        proof {
            assert(sk.take(0) =~= Seq::<(Owner, Seq<char>, SnapId)>::empty());
            assert(keys_view(rest_k@).subrange(0, nk as int) =~= keys_view(rest_k@));
            assert(keys_view(self.newest_key@) =~= Seq::<(Owner, Seq<char>, SnapId)>::empty());
        }
        while rest_k.len() > 0
            invariant
                nk == sk.len(),
                sk == orig.keys,
                rest_k@.len() <= nk,
                keys_view(rest_k@) == sk.subrange(nk - rest_k@.len(), nk as int),
                keys_view(self.newest_key@) == kept(sk.take(nk - rest_k@.len()), gk),
                gk == key_of(idx),
                ready_view(self.ready@) == kept(orig.ready, ready_of::<C, R>(idx)),
                self.pending@ == kept(orig.pending, of_module::<C, R>(idx)),
                self.next_id == orig.next_id,
                self.limits == old(self).limits,
            decreases rest_k@.len(),
        {
            let ghost k = nk - rest_k@.len();
            let ghost before = keys_view(rest_k@);
            let ghost before_keys = self.newest_key@;
            let e = rest_k.remove(0);
            let ghost ev = (e.0, e.1@, e.2);
            proof {
                assert(before[0] == ev);
                assert(sk[k] == ev);
                assert(sk.take(k + 1).drop_last() =~= sk.take(k));
                assert(sk.take(k + 1).last() == ev);
                assert(keys_view(rest_k@) =~= before.subrange(1, before.len() as int));
                assert(keys_view(rest_k@) =~= sk.subrange(k + 1, nk as int));
            }
            if e.0.idx != idx {
                self.newest_key.push(e);
                proof {
                    assert(!gk(ev));
                    assert(keys_view(self.newest_key@) =~= keys_view(before_keys).push(ev));
                }
            } else {
                proof {
                    assert(gk(ev));
                }
            }
        }
        proof {
            assert(sk.take(nk as int) =~= sk);
            let fin = self@;
            assert(fin == drop_model(orig, idx));
            lemma_kept(orig.pending, of_module::<C, R>(idx));
            lemma_kept(orig.ready, ready_of::<C, R>(idx));
            lemma_kept(orig.keys, key_of(idx));
            lemma_kept_ordered(orig.pending, of_module::<C, R>(idx), |p: PendingSnap<C, R>| p.id as int);
            lemma_kept_pairwise(orig.ready, ready_of::<C, R>(idx), |x: (PendingSnap<C, R>, Seq<char>), y: (PendingSnap<C, R>, Seq<char>)| x.0.id != y.0.id);
            lemma_kept_pairwise(orig.keys, key_of(idx), |x: (Owner, Seq<char>, SnapId), y: (Owner, Seq<char>, SnapId)| !(x.0 == y.0 && x.1 == y.1));
            assert forall|i: int| 0 <= i < fin.pending.len() implies fin.pending[i].id <= fin.next_id by {
                let j = choose|j: int| 0 <= j < orig.pending.len() && orig.pending[j] == fin.pending[i];
            }
            assert forall|i: int| 0 <= i < fin.ready.len() implies fin.ready[i].0.id <= fin.next_id by {
                let j = choose|j: int| 0 <= j < orig.ready.len() && orig.ready[j] == fin.ready[i];
            }
            assert forall|i: int, j: int| 0 <= i < fin.ready.len() && 0 <= j < fin.pending.len() implies fin.ready[i].0.id
                != fin.pending[j].id by {
                let a = choose|a: int| 0 <= a < orig.ready.len() && orig.ready[a] == fin.ready[i];
                let b = choose|b: int| 0 <= b < orig.pending.len() && orig.pending[b] == fin.pending[j];
            }
            assert(model_wf(fin));
        }
        gone
    }

    /// The module indices from `n` on that have anything here, in increasing order.
    pub fn owners_from(&self, n: usize) -> (r: Vec<usize>)
        ensures
            forall|i: int, j: int| 0 <= i < j < r@.len() ==> r@[i] < r@[j],
            forall|v: usize|
                r@.contains(v) <==> (n <= v && ((exists|i: int| 0 <= i < self@.pending.len() && self@.pending[i].owner.idx == v)
                    || (exists|i: int| 0 <= i < self@.ready.len() && self@.ready[i].0.owner.idx == v))),
    {
        let mut r: Vec<usize> = Vec::new();
        let mut i: usize = 0;
        while i < self.pending.len()
            invariant
                i <= self@.pending.len(),
                forall|a: int, b: int| 0 <= a < b < r@.len() ==> r@[a] < r@[b],
                forall|v: usize|
                    r@.contains(v) <==> (n <= v && exists|k: int| 0 <= k < i && self@.pending[k].owner.idx == v),
            decreases self@.pending.len() - i,
        {
            let v = self.pending[i].owner.idx;
            if v >= n {
                insert_sorted(&mut r, v);
            }
            proof {
                assert forall|x: usize| r@.contains(x) <==> (n <= x && exists|k: int| 0 <= k < i + 1 && self@.pending[k].owner.idx == x) by {
                    if n <= x && (exists|k: int| 0 <= k < i + 1 && self@.pending[k].owner.idx == x) {
                        let k = choose|k: int| 0 <= k < i + 1 && self@.pending[k].owner.idx == x;
                        if k < i {
                            assert(exists|k: int| 0 <= k < i && self@.pending[k].owner.idx == x);
                        }
                    }
                }
            }
            i += 1;
        }
        let mut j: usize = 0;
        while j < self.ready.len()
            invariant
                i == self@.pending.len(),
                j <= self@.ready.len(),
                forall|a: int, b: int| 0 <= a < b < r@.len() ==> r@[a] < r@[b],
                forall|v: usize|
                    r@.contains(v) <==> (n <= v && ((exists|k: int| 0 <= k < i && self@.pending[k].owner.idx == v)
                        || (exists|k: int| 0 <= k < j && self@.ready[k].0.owner.idx == v))),
            decreases self@.ready.len() - j,
        {
            let v = self.ready[j].0.owner.idx;
            proof {
                assert(self@.ready[j as int].0 == self.ready@[j as int].0);
            }
            if v >= n {
                insert_sorted(&mut r, v);
            }
            proof {
                assert forall|x: usize| r@.contains(x) <==> (n <= x && ((exists|k: int| 0 <= k < i && self@.pending[k].owner.idx == x)
                    || (exists|k: int| 0 <= k < j + 1 && self@.ready[k].0.owner.idx == x))) by {
                    if n <= x && (exists|k: int| 0 <= k < j + 1 && self@.ready[k].0.owner.idx == x) {
                        let k = choose|k: int| 0 <= k < j + 1 && self@.ready[k].0.owner.idx == x;
                        if k < j {
                            assert(exists|k: int| 0 <= k < j && self@.ready[k].0.owner.idx == x);
                        }
                    }
                }
            }
            j += 1;
        }
        r
    }

    /// An answer taken by [`Self::take_answers`], as its callback is to hear it: nothing when
    /// its module VM is no longer the one that asked or is disabled (`alive` false); otherwise
    /// the answer — or [`SUPERSEDED`], its charge given back, when a newer request with its key
    /// was made since, as by a callback earlier in the same batch. Its key is forgotten when it
    /// was the newest with it. The request comes back to be let go.
    pub fn deliver(&mut self, p: PendingSnap<C, R>, answer: Answer, alive: bool) -> (r: (PendingSnap<C, R>, Option<Answer>))
        requires
            old(self).wf(),
        ensures
            final(self)@ == forget_model(old(self)@, p),
            final(self).wf(),
            final(self).limits() == old(self).limits(),
            !alive ==> r.0 == p && r.1 is None,
            alive && replaced_in(old(self)@.keys, p) ==> r.0 == ended(p) && (r.1 matches Some(a) && answer_view(a) == superseded_answer(answer_view(answer))),
            alive && !replaced_in(old(self)@.keys, p) ==> r.0 == p && (r.1 matches Some(a) && answer_view(a) == answer_view(answer)),
    {
        if !alive {
            self.forget_key(&p);
            return (p, None);
        }
        let gone = self.replaced(&p);
        let mut p = p;
        let answer = if gone {
            p.res = None;
            let (change, waited) = match answer {
                Answer::Picture { change, waited, .. } => (change, waited),
                Answer::Failed { change, waited, .. } => (change, waited),
            };
            let change = match change {
                Some(_) => Some(ChangeInfo { changed: false, settled: false, rebased: false }),
                None => None,
            };
            Answer::Failed { why: <String as StringExecFns>::from_str(SUPERSEDED), frames: 0, change, waited }
        } else {
            answer
        };
        self.forget_key(&p);
        (p, Some(answer))
    }

    /// A new request of `owner` for `rect` — the region's rectangle, or why there is none this
    /// time — made with the budgets' charge `res` and the flag the thread watches: see
    /// [`asked_model`]. Its callback `cb` is answered exactly once, from [`Self::take_answers`].
    #[verifier::spinoff_prover]
    #[verifier::rlimit(60)]
    pub fn snap_async(
        &mut self,
        owner: Owner,
        prio: Priority,
        key: Option<String>,
        change: bool,
        cancel: Arc<AtomicBool>,
        asked: u64,
        cb: C,
        res: Option<R>,
        rect: Result<Rect, String>,
    ) -> (r: Asked)
        requires
            old(self).wf(),
            old(self)@.next_id < u64::MAX,
        ensures
            final(self)@ == asked_model(
                old(self)@,
                new_request(old(self)@, owner, prio, key, change, cancel, asked, cb, res),
                rect_view(rect),
                old(self).limits(),
            ),
            r.id == old(self)@.next_id + 1,
            r.taken == asked_taken(
                old(self)@,
                new_request(old(self)@, owner, prio, key, change, cancel, asked, cb, res),
                rect_view(rect),
                old(self).limits(),
            ),
            r.ended == asked_ended(
                old(self)@,
                new_request(old(self)@, owner, prio, key, change, cancel, asked, cb, res),
                rect_view(rect),
                old(self).limits(),
            ),
            final(self).wf(),
            final(self).limits() == old(self).limits(),
    {
        let ghost m = self@;
        let start_len = self.pending.len();
        let id = self.next_id + 1;
        self.next_id = id;
        let p = PendingSnap { id, owner, prio, key, change, cancel, asked, cb, res };
        let ghost pv = p;
        proof {
            let m1 = self@;
            assert forall|i: int| 0 <= i < m1.pending.len() implies m1.pending[i].id <= m1.next_id by {}
            assert(model_wf(m1));
            assert(all_below(m1, id));
            if let Some(k) = pv.key {
                lemma_below_end_all(m1, keyed::<C, R>(owner, k@), SUPERSEDED@, id);
            }
        }
        let mut n_ended: usize = match &p.key {
            Some(k) => self.supersede(owner, k.as_str()),
            None => 0,
        };
        self.note_key(&p);
        let ghost m3 = self@;
        assert(all_below(m3, id));
        let r = match rect {
            Err(why) => {
                self.ready.push((p, why));
                proof {
                    assert(ready_view(self.ready@) =~= m3.ready.push((pv, why@)));
                    lemma_push_ready_wf(m3, pv, why@);
                }
                return Asked { id, taken: None, ended: n_ended };
            },
            Ok(r) => r,
        };
        proof {
            lemma_room_reasons_len(m3.pending, owner.idx, change, self.limits);
            if let Some(k) = pv.key {
                lemma_split_len(m.pending, keyed::<C, R>(owner, k@));
            }
            assert(n_ended + m3.pending.len() <= m.pending.len());
            assert(m.pending.len() == start_len);
        }
        let (crowded, refused) = self.make_room(owner, change);
        proof {
            assert(crowded@.len() == crowded@.map_values(|x: String| x@).len());
        }
        n_ended = n_ended + crowded.len();
        if let Some(why) = refused {
            let mut p = p;
            p.res = None;
            self.ready.push((p, why));
            proof {
                assert(ready_view(self.ready@) =~= m3.ready.push((ended(pv), why@)));
                lemma_push_ready_wf(m3, ended(pv), why@);
            }
            return Asked { id, taken: None, ended: n_ended };
        }
        let ghost m4 = self@;
        proof {
            let s3 = m3.pending;
            let lim = self.limits;
            let mid = end_opt(m3, id_at(s3, wait_to_end(s3, owner.idx, change, lim)), owner_waits_text(lim.waits_per_owner));
            if let Some(x) = id_at(s3, wait_to_end(s3, owner.idx, change, lim)) {
                lemma_below_end_model(m3, x, owner_waits_text(lim.waits_per_owner), id);
            }
            if let Some(x) = id_at(s3, any_to_end(s3, owner.idx, change, lim)) {
                lemma_below_end_model(mid, x, owner_requests_text(lim.per_owner), id);
            }
            assert(all_below(m4, id));
        }
        self.pending.push(p);
        proof {
            lemma_push_pending_wf(m4, pv);
        }
        Asked { id, taken: Some(r), ended: n_ended }
    }

    /// The requests remembered as the newest of their module VM with their key, by id.
    pub fn newest_keys(&self) -> (r: Vec<SnapId>)
        ensures
            r@ == self@.keys.map_values(|e: (Owner, Seq<char>, SnapId)| e.2),
    {
        let mut r: Vec<SnapId> = Vec::new();
        let mut i: usize = 0;
        while i < self.newest_key.len()
            invariant
                i <= self.newest_key@.len(),
                r@ == self@.keys.take(i as int).map_values(|e: (Owner, Seq<char>, SnapId)| e.2),
            decreases self.newest_key@.len() - i,
        {
            r.push(self.newest_key[i].2);
            proof {
                assert(self@.keys.take(i + 1) =~= self@.keys.take(i as int).push(self@.keys[i as int]));
                assert(self@.keys.take(i + 1).map_values(|e: (Owner, Seq<char>, SnapId)| e.2)
                    =~= self@.keys.take(i as int).map_values(|e: (Owner, Seq<char>, SnapId)| e.2).push(self@.keys[i as int].2));
            }
            i += 1;
        }
        proof {
            assert(self@.keys.take(i as int) =~= self@.keys);
        }
        r
    }

    /// Where request `id` is on the thread's list.
    fn position(&self, id: SnapId) -> (r: Option<usize>)
        requires
            self.wf(),
        ensures
            match r {
                Some(i) => i < self@.pending.len() && has_id(self@.pending, id) && index_of(self@.pending, id) == i,
                None => !has_id(self@.pending, id),
            },
    {
        let mut i: usize = 0;
        while i < self.pending.len()
            invariant
                i <= self.pending@.len(),
                self.wf(),
                forall|k: int| 0 <= k < i ==> self.pending@[k].id != id,
            decreases self.pending@.len() - i,
        {
            if self.pending[i].id == id {
                proof {
                    let k = index_of(self@.pending, id);
                    assert(self@.pending[i as int].id == id);
                    assert(self@.pending[k].id == id);
                    assert(k == i);
                }
                return Some(i);
            }
            i += 1;
        }
        None
    }

    /// Every answer due now: those decided without the thread, in the order they were decided,
    /// then the thread's `done`, in order, each taking its request off the list — so each
    /// request is answered exactly once; an answer for a request no longer waiting is let go.
    #[verifier::spinoff_prover]
    pub fn take_answers(&mut self, done: Vec<SnapDone>, now: u64) -> (out: Vec<(PendingSnap<C, R>, Answer)>)
        requires
            old(self).wf(),
        ensures
            answers_view(out@) == ready_answers(old(self)@.ready, now) + run_done(old(self)@.pending, done@).1,
            final(self)@ == (SnapModel { pending: run_done(old(self)@.pending, done@).0, ready: seq![], ..old(self)@ }),
            final(self).wf(),
            final(self).limits() == old(self).limits(),
    {
        let ghost orig = self@;
        let mut ready: Vec<(PendingSnap<C, R>, String)> = Vec::new();
        std::mem::swap(&mut ready, &mut self.ready);
        let ghost rv = ready_view(ready@);
        let ghost nready = ready@.len();
        let mut out: Vec<(PendingSnap<C, R>, Answer)> = Vec::new();
        proof {
            assert(ready_view(self.ready@) =~= Seq::<(PendingSnap<C, R>, Seq<char>)>::empty());
            assert(rv.take(0) =~= Seq::<(PendingSnap<C, R>, Seq<char>)>::empty());
            assert(ready_answers(rv.take(0), now) =~= Seq::<(PendingSnap<C, R>, AnswerView)>::empty());
            assert(answers_view(out@) =~= Seq::<(PendingSnap<C, R>, AnswerView)>::empty());
            assert(ready_view(ready@).subrange(0, nready as int) =~= ready_view(ready@));
        }
        while ready.len() > 0
            invariant
                rv == orig.ready,
                nready == rv.len(),
                ready@.len() <= nready,
                ready_view(ready@) == rv.subrange(nready - ready@.len(), nready as int),
                answers_view(out@) == ready_answers(rv.take(nready - ready@.len()), now),
                self@ == (SnapModel { ready: seq![], ..orig }),
                self.limits == old(self).limits,
            decreases ready@.len(),
        {
            let ghost k = nready - ready@.len();
            let ghost before = ready_view(ready@);
            let (p, why) = ready.remove(0);
            let change = if p.change {
                Some(ChangeInfo { changed: false, settled: false, rebased: false })
            } else {
                None
            };
            let waited = now.saturating_sub(p.asked);
            let ghost e = (p, why@);
            let ghost before_out = out@;
            out.push((p, Answer::Failed { why, frames: 0, change, waited }));
            proof {
                assert(before[0] == e);
                assert(rv[k] == e);
                assert(ready_view(ready@) =~= before.subrange(1, before.len() as int));
                assert(ready_view(ready@) =~= rv.subrange(k + 1, nready as int));
                assert(rv.take(k + 1) =~= rv.take(k).push(e));
                assert(ready_answers(rv.take(k).push(e), now) =~= ready_answers(rv.take(k), now).push(ready_answer(e, now)));
                assert(answers_view(before_out.push(out@.last())) =~= answers_view(before_out).push((e.0, answer_view(out@.last().1))));
                assert(out@ == before_out.push(out@.last()));
                assert(answers_view(out@) =~= ready_answers(rv.take(k + 1), now));
            }
        }
        proof {
            assert(rv.take(nready as int) =~= rv);
        }
        let ghost ready_part = answers_view(out@);
        let mut done = done;
        let ghost dv = done@;
        let ghost ndone = done@.len();
        proof {
            assert(dv.take(0) =~= Seq::<SnapDone>::empty());
            assert(done@.subrange(0, ndone as int) =~= done@);
            assert(answers_view(out@) =~= ready_part + run_done(orig.pending, dv.take(0)).1);
        }
        while done.len() > 0
            invariant
                ndone == dv.len(),
                done@.len() <= ndone,
                done@ == dv.subrange(ndone - done@.len(), ndone as int),
                ready_part == ready_answers(orig.ready, now),
                answers_view(out@) == ready_part + run_done(orig.pending, dv.take(ndone - done@.len())).1,
                self@ == (SnapModel { pending: run_done(orig.pending, dv.take(ndone - done@.len())).0, ready: seq![], ..orig }),
                ascending(orig.pending, orig.next_id),
                model_wf(orig),
                self.limits == old(self).limits,
            decreases done@.len(),
        {
            let ghost k = ndone - done@.len();
            let ghost state = run_done(orig.pending, dv.take(k));
            let d = done.remove(0);
            proof {
                assert(d == dv[k]);
                assert(done@ =~= dv.subrange(k + 1, ndone as int));
                assert(dv.take(k + 1).drop_last() =~= dv.take(k));
                assert(dv.take(k + 1).last() == d);
                lemma_run_done(orig.pending, dv.take(k), orig.next_id);
                assert(self.wf());
            }
            match self.position(d.id) {
                Some(i) => {
                    let ghost before_out = answers_view(out@);
                    let p = self.pending.remove(i);
                    let answer = match d.outcome {
                        SnapOutcome::Picture { frame, frames, change } => {
                            let waited = frame.taken.saturating_sub(d.asked);
                            Answer::Picture { frame, frames, change, waited }
                        },
                        SnapOutcome::Failed { why, frames, change } => {
                            Answer::Failed { why, frames, change, waited: d.ended.saturating_sub(d.asked) }
                        },
                        SnapOutcome::Cancelled => {
                            let change = if p.change {
                                Some(ChangeInfo { changed: false, settled: false, rebased: false })
                            } else {
                                None
                            };
                            Answer::Failed {
                                why: <String as StringExecFns>::from_str(crate::snapshot::CANCELLED),
                                frames: 0,
                                change,
                                waited: d.ended.saturating_sub(d.asked),
                            }
                        },
                    };
                    let ghost av = answer_view(answer);
                    let ghost pp = p;
                    out.push((p, answer));
                    proof {
                        assert(pp == state.0[i as int]);
                        assert(av == answer_of_done(pp, d));
                        assert(answers_view(out@) =~= before_out.push((pp, av)));
                        assert(self@.pending =~= state.0.remove(i as int));
                    }
                },
                None => {},
            }
        }
        proof {
            assert(dv.take(ndone as int) =~= dv);
            lemma_run_done(orig.pending, dv, orig.next_id);
            let fin = self@;
            assert forall|i: int| 0 <= i < fin.pending.len() implies fin.pending[i].id <= fin.next_id by {
                assert(orig.pending.contains(fin.pending[i]));
            }
            assert(model_wf(fin));
        }
        out
    }

    /// Takes `id` off the thread's hands and answers it `why` on the next tick, giving its charge
    /// back now; the thread is told to stop photographing it. False when it was not waiting.
    fn end(&mut self, id: SnapId, why: String) -> (r: bool)
        requires
            old(self).wf(),
        ensures
            final(self)@ == end_model(old(self)@, id, why@),
            r == has_id(old(self)@.pending, id),
            final(self).wf(),
            final(self).limits() == old(self).limits(),
    {
        let mut i: usize = 0;
        while i < self.pending.len()
            invariant
                i <= self.pending@.len(),
                forall|k: int| 0 <= k < i ==> self.pending@[k].id != id,
                self@ == old(self)@,
                self.wf(),
                self.limits() == old(self).limits(),
            decreases self.pending@.len() - i,
        {
            if self.pending[i].id == id {
                let ghost before = self@;
                let mut p = self.pending.remove(i);
                p.res = None;
                tell_stop(&p.cancel);
                let ghost q = p;
                self.ready.push((p, why));
                proof {
                    assert(before.pending[i as int].id == id);
                    let k = index_of(before.pending, id);
                    assert(before.pending[k].id == id);
                    assert(k == i);
                    assert(q == ended(before.pending[i as int]));
                    assert(ready_view(self.ready@) =~= before.ready.push((q, why@)));
                    assert(self@.pending =~= before.pending.remove(i as int));
                    let m = self@;
                    assert forall|a: int, b: int|
                        0 <= a < m.ready.len() && 0 <= b < m.pending.len() implies m.ready[a].0.id
                        != m.pending[b].id by {
                        if a == m.ready.len() - 1 {
                            if b < i {
                                assert(before.pending[b].id < before.pending[i as int].id);
                            } else {
                                assert(m.pending[b] == before.pending[b + 1]);
                                assert(before.pending[i as int].id < before.pending[b + 1].id);
                            }
                        } else {
                            assert(m.ready[a] == before.ready[a]);
                            if b < i {
                                assert(m.pending[b] == before.pending[b]);
                            } else {
                                assert(m.pending[b] == before.pending[b + 1]);
                            }
                        }
                    }
                    assert forall|a: int, b: int| 0 <= a < b < m.ready.len() implies m.ready[a].0.id
                        != m.ready[b].0.id by {
                        if b == m.ready.len() - 1 {
                            assert(before.ready[a].0.id != before.pending[i as int].id);
                        }
                    }
                    assert forall|a: int, b: int| 0 <= a < b < m.pending.len() implies m.pending[a].id
                        < m.pending[b].id by {
                        let a0 = if a < i { a } else { a + 1 };
                        let b0 = if b < i { b } else { b + 1 };
                        assert(m.pending[a] == before.pending[a0]);
                        assert(m.pending[b] == before.pending[b0]);
                    }
                    assert forall|a: int| 0 <= a < m.pending.len() implies m.pending[a].id <= m.next_id by {
                        let a0 = if a < i { a } else { a + 1 };
                        assert(m.pending[a] == before.pending[a0]);
                    }
                    assert forall|a: int| 0 <= a < m.ready.len() implies m.ready[a].0.id <= m.next_id by {
                        if a < m.ready.len() - 1 {
                            assert(m.ready[a] == before.ready[a]);
                        }
                    }
                    assert(m.keys == before.keys);
                    assert(model_wf(m));
                }
                return true;
            }
            i += 1;
        }
        false
    }
}


/// How many items of `s` `pred` holds for.
pub open spec fn count_of<T>(s: Seq<T>, pred: spec_fn(T) -> bool) -> nat
    decreases s.len(),
{
    if s.len() == 0 {
        0
    } else {
        count_of(s.drop_last(), pred) + if pred(s.last()) {
            1nat
        } else {
            0nat
        }
    }
}

pub open spec fn waits_of<C, R>() -> spec_fn(PendingSnap<C, R>) -> bool {
    |p: PendingSnap<C, R>| p.change
}

pub open spec fn module_waits_of<C, R>(idx: usize) -> spec_fn(PendingSnap<C, R>) -> bool {
    |p: PendingSnap<C, R>| p.owner.idx == idx && p.change
}

/// No module VM has more requests with the thread than its share, nor more change waits; the
/// application has no more change waits, nor requests, than its limits.
pub open spec fn within_limits<C, R>(s: Seq<PendingSnap<C, R>>, lim: SnapLimits) -> bool {
    &&& forall|idx: usize| #[trigger] count_of(s, of_module::<C, R>(idx)) <= lim.per_owner
    &&& forall|idx: usize| #[trigger] count_of(s, module_waits_of::<C, R>(idx)) <= lim.waits_per_owner
    &&& count_of(s, waits_of::<C, R>()) <= lim.waits
    &&& s.len() <= lim.total
}

pub proof fn lemma_count_concat<T>(a: Seq<T>, b: Seq<T>, pred: spec_fn(T) -> bool)
    ensures
        count_of(a + b, pred) == count_of(a, pred) + count_of(b, pred),
    decreases b.len(),
{
    if b.len() > 0 {
        lemma_count_concat(a, b.drop_last(), pred);
        assert((a + b).drop_last() =~= a + b.drop_last());
        assert((a + b).last() == b.last());
    } else {
        assert(a + b =~= a);
    }
}

pub proof fn lemma_count_remove<T>(s: Seq<T>, i: int, pred: spec_fn(T) -> bool)
    requires
        0 <= i < s.len(),
    ensures
        count_of(s.remove(i), pred) + (if pred(s[i]) { 1nat } else { 0nat }) == count_of(s, pred),
{
    let a = s.take(i);
    let b = s.skip(i + 1);
    let one = seq![s[i]];
    assert(s.remove(i) =~= a + b);
    assert(s =~= a + (one + b));
    lemma_count_concat(a, b, pred);
    lemma_count_concat(one, b, pred);
    lemma_count_concat(a, one + b, pred);
    assert(one.drop_last() =~= Seq::<T>::empty());
    assert(one.last() == s[i]);
    assert(count_of(Seq::<T>::empty(), pred) == 0);
    assert(count_of(one, pred) == (if pred(s[i]) { 1nat } else { 0nat }));
}

pub proof fn lemma_count_push<T>(s: Seq<T>, x: T, pred: spec_fn(T) -> bool)
    ensures
        count_of(s.push(x), pred) == count_of(s, pred) + (if pred(x) { 1nat } else { 0nat }),
{
    assert(s.push(x).drop_last() =~= s);
}

/// Keeping some items counts no more of any kind.
pub proof fn lemma_count_kept<T>(s: Seq<T>, gone: spec_fn(T) -> bool, pred: spec_fn(T) -> bool)
    ensures
        count_of(kept(s, gone), pred) <= count_of(s, pred),
    decreases s.len(),
{
    if s.len() > 0 {
        lemma_count_kept(s.drop_last(), gone, pred);
        if !gone(s.last()) {
            lemma_count_push(kept(s.drop_last(), gone), s.last(), pred);
        }
    }
}

/// Counting indices is counting the items at them.
pub proof fn lemma_count_index_items<T>(s: Seq<T>, n: int, p: spec_fn(int) -> bool, pred: spec_fn(T) -> bool)
    requires
        0 <= n <= s.len(),
        forall|i: int| 0 <= i < s.len() ==> p(i) == pred(#[trigger] s[i]),
    ensures
        count_index(n, p) == count_of(s.take(n), pred),
    decreases n,
{
    if n > 0 {
        lemma_count_index_items(s, n - 1, p, pred);
        assert(s.take(n).drop_last() =~= s.take(n - 1));
        assert(s.take(n).last() == s[n - 1]);
    } else {
        assert(s.take(0) =~= Seq::<T>::empty());
    }
}

/// Counting indices but one counts one fewer when `p` holds at it.
pub proof fn lemma_count_index_but(n: int, p: spec_fn(int) -> bool, q: spec_fn(int) -> bool, w: int)
    requires
        0 <= w < n,
        forall|i: int| #[trigger] q(i) == (p(i) && i != w),
    ensures
        count_index(n, q) + (if p(w) { 1nat } else { 0nat }) == count_index(n, p),
    decreases n,
{
    if n - 1 > w {
        lemma_count_index_but(n - 1, p, q, w);
    } else {
        lemma_count_index_same(n - 1, p, q);
    }
}

/// Two predicates that agree below `n` count alike there.
pub proof fn lemma_count_index_same(n: int, p: spec_fn(int) -> bool, q: spec_fn(int) -> bool)
    requires
        forall|i: int| 0 <= i < n ==> #[trigger] q(i) == p(i),
    ensures
        count_index(n, q) == count_index(n, p),
        first_index(n, q) == first_index(n, p),
    decreases n,
{
    if n > 0 {
        lemma_count_index_same(n - 1, p, q);
    }
}

/// Something counted has a first.
pub proof fn lemma_count_first(n: int, p: spec_fn(int) -> bool)
    ensures
        count_index(n, p) > 0 ==> first_index(n, p) is Some,
    decreases n,
{
    if n > 0 {
        lemma_count_first(n - 1, p);
    }
}

pub proof fn lemma_count_all<T>(s: Seq<T>)
    ensures
        count_of(s, |x: T| true) == s.len(),
    decreases s.len(),
{
    if s.len() > 0 {
        lemma_count_all(s.drop_last());
    }
}

/// 1 when the request at `i` is of `pred`'s kind, 0 otherwise or when there is none.
pub open spec fn one_if<C, R>(s: Seq<PendingSnap<C, R>>, i: Option<int>, pred: spec_fn(PendingSnap<C, R>) -> bool) -> nat {
    match i {
        Some(k) => if pred(s[k]) {
            1nat
        } else {
            0nat
        },
        None => 0nat,
    }
}

/// Making room takes out exactly the two requests it picks.
pub proof fn lemma_room_counts<C, R>(m: SnapModel<C, R>, idx: usize, change: bool, lim: SnapLimits, pred: spec_fn(PendingSnap<C, R>) -> bool)
    requires
        forall|i: int, j: int| 0 <= i < j < m.pending.len() ==> m.pending[i].id < m.pending[j].id,
    ensures
        count_of(room_model(m, idx, change, lim).pending, pred) + one_if(m.pending, wait_to_end(m.pending, idx, change, lim), pred)
            + one_if(m.pending, any_to_end(m.pending, idx, change, lim), pred) == count_of(m.pending, pred),
        room_model(m, idx, change, lim).pending.len() + one_if(m.pending, wait_to_end(m.pending, idx, change, lim), |x: PendingSnap<C, R>| true)
            + one_if(m.pending, any_to_end(m.pending, idx, change, lim), |x: PendingSnap<C, R>| true) == m.pending.len(),
{
    let s = m.pending;
    let n = s.len() as int;
    let w = wait_to_end(s, idx, change, lim);
    let a = any_to_end(s, idx, change, lim);
    lemma_first_index(n, my_wait(s, idx));
    lemma_first_index(n, mine_but(s, idx, w));
    let all = |x: PendingSnap<C, R>| true;
    let mid = end_opt(m, id_at(s, w), owner_waits_text(lim.waits_per_owner));
    assert(ascending(s, u64::MAX));
    match w {
        Some(wv) => {
            assert(s[wv].id == s[wv].id);
            let k = index_of(s, s[wv].id);
            assert(s[k].id == s[wv].id);
            assert(k == wv);
            assert(mid.pending == s.remove(wv));
            lemma_count_remove(s, wv, pred);
            lemma_count_remove(s, wv, all);
            lemma_remove_ascending(s, u64::MAX, wv);
        },
        None => {
            assert(mid == m);
        },
    }
    let sm = mid.pending;
    assert(ascending(sm, u64::MAX));
    match a {
        Some(av) => {
            let a2 = match w {
                Some(wv) => if av < wv {
                    av
                } else {
                    av - 1
                },
                None => av,
            };
            assert(sm[a2] == s[av]);
            let k = index_of(sm, s[av].id);
            assert(sm[k].id == s[av].id);
            assert(k == a2);
            lemma_count_remove(sm, a2, pred);
            lemma_count_remove(sm, a2, all);
            assert(room_model(m, idx, change, lim).pending == sm.remove(a2));
        },
        None => {},
    }
    lemma_count_all(s);
    lemma_count_all(sm);
    lemma_count_all(room_model(m, idx, change, lim).pending);
}

/// Once a new request has its key, what waits for the thread is still within the limits and
/// still in the order it was asked.
pub proof fn lemma_keyed_within<C, R>(m: SnapModel<C, R>, p: PendingSnap<C, R>, lim: SnapLimits)
    requires
        model_wf(m),
        within_limits(m.pending, lim),
    ensures
        within_limits(keyed_model(m, p).pending, lim),
        forall|i: int, j: int|
            0 <= i < j < keyed_model(m, p).pending.len() ==> keyed_model(m, p).pending[i].id < keyed_model(m, p).pending[j].id,
{
    match p.key {
        Some(k) => {
            let g = keyed::<C, R>(p.owner, k@);
            let s3 = kept(m.pending, g);
            assert(keyed_model(m, p).pending == s3);
            lemma_kept(m.pending, g);
            lemma_kept_ordered(m.pending, g, |q: PendingSnap<C, R>| q.id as int);
            assert forall|idx: usize| #[trigger] count_of(s3, of_module::<C, R>(idx)) <= lim.per_owner by {
                lemma_count_kept(m.pending, g, of_module::<C, R>(idx));
                assert(count_of(m.pending, of_module::<C, R>(idx)) <= lim.per_owner);
            }
            assert forall|idx: usize| #[trigger] count_of(s3, module_waits_of::<C, R>(idx)) <= lim.waits_per_owner by {
                lemma_count_kept(m.pending, g, module_waits_of::<C, R>(idx));
                assert(count_of(m.pending, module_waits_of::<C, R>(idx)) <= lim.waits_per_owner);
            }
            lemma_count_kept(m.pending, g, waits_of::<C, R>());
        },
        None => {},
    }
}

/// Too many at once end the module's oldest or refuse the new one: a new request leaves what
/// waits for the thread within every limit it was within — each module VM's share of requests
/// and of change waits, and the application's — given shares of at least one.
pub proof fn the_limits_hold<C, R>(m: SnapModel<C, R>, p: PendingSnap<C, R>, rect: Result<Rect, Seq<char>>, lim: SnapLimits)
    requires
        model_wf(m),
        within_limits(m.pending, lim),
        lim.per_owner >= 1,
        lim.waits_per_owner >= 1,
    ensures
        within_limits(asked_model(m, p, rect, lim).pending, lim),
{
    let m3 = keyed_model(m, p);
    let s3 = m3.pending;
    lemma_keyed_within(m, p, lim);
    if rect is Err || room_refusal(s3, p.owner.idx, p.change, lim) is Some {
        assert(asked_model(m, p, rect, lim).pending == s3);
        return;
    }
    let idx = p.owner.idx;
    let change = p.change;
    let n = s3.len() as int;
    let w = wait_to_end(s3, idx, change, lim);
    let a = any_to_end(s3, idx, change, lim);
    let s4 = room_model(m3, idx, change, lim).pending;
    let fin = s4.push(p);
    assert(asked_model(m, p, rect, lim).pending == fin);
    lemma_first_index(n, my_wait(s3, idx));
    lemma_first_index(n, mine_but(s3, idx, w));
    assert(s3.take(n) =~= s3);
    // The application's requests.
    let all = |x: PendingSnap<C, R>| true;
    let p0 = |i: int| true;
    let p1 = |i: int| w != Some(i);
    lemma_room_counts(m3, idx, change, lim, all);
    lemma_count_index_items(s3, n, p0, all);
    lemma_count_all(s3);
    match w {
        Some(wv) => lemma_count_index_but(n, p0, p1, wv),
        None => lemma_count_index_same(n, p0, p1),
    }
    match a {
        Some(av) => lemma_count_index_but(n, p1, left_but(w, a), av),
        None => lemma_count_index_same(n, p1, left_but(w, a)),
    }
    assert(fin.len() <= lim.total);
    // The application's change waits.
    let wt = waits_of::<C, R>();
    let q0 = |i: int| s3[i].change;
    let q1 = |i: int| s3[i].change && w != Some(i);
    lemma_room_counts(m3, idx, change, lim, wt);
    lemma_count_index_items(s3, n, q0, wt);
    match w {
        Some(wv) => lemma_count_index_but(n, q0, q1, wv),
        None => lemma_count_index_same(n, q0, q1),
    }
    match a {
        Some(av) => lemma_count_index_but(n, q1, waits_but(s3, w, a), av),
        None => lemma_count_index_same(n, q1, waits_but(s3, w, a)),
    }
    lemma_count_push(s4, p, wt);
    assert(count_of(fin, wt) <= lim.waits);
    // Each module's requests.
    assert forall|j: usize| #[trigger] count_of(fin, of_module::<C, R>(j)) <= lim.per_owner by {
        let mo = of_module::<C, R>(j);
        lemma_room_counts(m3, idx, change, lim, mo);
        lemma_count_push(s4, p, mo);
        assert(count_of(s3, mo) <= lim.per_owner);
        if j == idx {
            let r0 = |i: int| s3[i].owner.idx == idx;
            lemma_count_index_items(s3, n, r0, mo);
            match w {
                Some(wv) => lemma_count_index_but(n, r0, mine_but(s3, idx, w), wv),
                None => lemma_count_index_same(n, r0, mine_but(s3, idx, w)),
            }
            lemma_count_first(n, mine_but(s3, idx, w));
        }
    }
    // Each module's change waits.
    assert forall|j: usize| #[trigger] count_of(fin, module_waits_of::<C, R>(j)) <= lim.waits_per_owner by {
        let mw = module_waits_of::<C, R>(j);
        lemma_room_counts(m3, idx, change, lim, mw);
        lemma_count_push(s4, p, mw);
        assert(count_of(s3, mw) <= lim.waits_per_owner);
        if j == idx {
            lemma_count_index_items(s3, n, my_wait(s3, idx), mw);
            lemma_count_first(n, my_wait(s3, idx));
        }
    }
}

/// Each request is answered once: the answers one call of `take_answers` hands out are for
/// distinct requests, and none of them is left waiting to be answered again.
pub proof fn an_answer_comes_once<C, R>(m: SnapModel<C, R>, done: Seq<SnapDone>, now: u64)
    requires
        model_wf(m),
    ensures
        forall|i: int, j: int|
            0 <= i < j < (ready_answers(m.ready, now) + run_done(m.pending, done).1).len() ==> (ready_answers(
                m.ready,
                now,
            ) + run_done(m.pending, done).1)[i].0.id != (ready_answers(m.ready, now) + run_done(m.pending, done).1)[j].0.id,
        forall|i: int, j: int|
            0 <= i < (ready_answers(m.ready, now) + run_done(m.pending, done).1).len() && 0 <= j < run_done(
                m.pending,
                done,
            ).0.len() ==> (ready_answers(m.ready, now) + run_done(m.pending, done).1)[i].0.id != run_done(
                m.pending,
                done,
            ).0[j].id,
{
    let ra = ready_answers(m.ready, now);
    let (rest, outs) = run_done(m.pending, done);
    let all = ra + outs;
    lemma_run_done(m.pending, done, m.next_id);
    assert forall|i: int| 0 <= i < ra.len() implies ra[i].0 == m.ready[i].0 by {}
    assert forall|i: int, j: int| 0 <= i < j < all.len() implies all[i].0.id != all[j].0.id by {
        if j < ra.len() {
            assert(all[i] == ra[i] && all[j] == ra[j]);
        } else if i < ra.len() {
            assert(all[i] == ra[i]);
            assert(all[j] == outs[j - ra.len()]);
            assert(m.pending.contains(outs[j - ra.len()].0));
        } else {
            assert(all[i] == outs[i - ra.len()]);
            assert(all[j] == outs[j - ra.len()]);
        }
    }
    assert forall|i: int, j: int| 0 <= i < all.len() && 0 <= j < rest.len() implies all[i].0.id != rest[j].id by {
        if i < ra.len() {
            assert(all[i] == ra[i]);
            assert(m.pending.contains(rest[j]));
        } else {
            assert(all[i] == outs[i - ra.len()]);
        }
    }
}

/// Dropping a module leaves nothing of it — no request with the thread, no answer waiting, no
/// key — and every other module's requests and answers stay as they were.
pub proof fn dropping_a_module_leaves_nothing_of_it<C, R>(m: SnapModel<C, R>, idx: usize)
    ensures
        forall|i: int| 0 <= i < drop_model(m, idx).pending.len() ==> drop_model(m, idx).pending[i].owner.idx != idx,
        forall|i: int| 0 <= i < drop_model(m, idx).ready.len() ==> drop_model(m, idx).ready[i].0.owner.idx != idx,
        forall|i: int| 0 <= i < drop_model(m, idx).keys.len() ==> drop_model(m, idx).keys[i].0.idx != idx,
        forall|i: int| 0 <= i < m.pending.len() && m.pending[i].owner.idx != idx ==> drop_model(m, idx).pending.contains(m.pending[i]),
        forall|i: int| 0 <= i < m.ready.len() && m.ready[i].0.owner.idx != idx ==> drop_model(m, idx).ready.contains(m.ready[i]),
{
    lemma_kept(m.pending, of_module::<C, R>(idx));
    lemma_kept(m.ready, ready_of::<C, R>(idx));
    lemma_kept(m.keys, key_of(idx));
}

pub proof fn lemma_noted(keys: Seq<(Owner, Seq<char>, SnapId)>, o: Owner, k: Seq<char>, id: SnapId)
    requires
        forall|i: int, j: int| 0 <= i < j < keys.len() ==> !(keys[i].0 == keys[j].0 && keys[i].1 == keys[j].1),
    ensures
        newest(noted(keys, o, k, id), o, k) == Some(id),
{
    let n = noted(keys, o, k, id);
    let at = if has_key(keys, o, k) {
        key_at(keys, o, k)
    } else {
        keys.len() as int
    };
    assert(n[at] == (o, k, id));
    assert(has_key(n, o, k));
    let j = key_at(n, o, k);
    if j != at {
        if has_key(keys, o, k) {
            assert(n[j] == keys[j]);
            if j < at {
                assert(!(keys[j].0 == keys[at].0 && keys[j].1 == keys[at].1));
            } else {
                assert(!(keys[at].0 == keys[j].0 && keys[at].1 == keys[j].1));
            }
        } else {
            assert(n[j] == keys[j]);
        }
    }
}

/// Latest wins per key: once a new request with a key is made, no older request of its module
/// VM with that key waits for the thread any more, and every such older answer not delivered
/// yet is superseded when it is.
pub proof fn the_newest_request_with_a_key_wins<C, R>(m: SnapModel<C, R>, p: PendingSnap<C, R>, q: PendingSnap<C, R>)
    requires
        model_wf(m),
        p.id == m.next_id + 1,
        p.key is Some,
        q.owner == p.owner,
        q.key is Some,
        q.key->0@ == p.key->0@,
        q.id < p.id,
    ensures
        !keyed_model(m, p).pending.contains(q),
        replaced_in(keyed_model(m, p).keys, q),
{
    let k = p.key->0;
    let m1 = SnapModel { next_id: p.id, ..m };
    let g = keyed::<C, R>(p.owner, k@);
    lemma_kept(m1.pending, g);
    let m2 = end_all(m1, g, SUPERSEDED@);
    assert(g(q));
    lemma_noted(m2.keys, p.owner, k@, p.id);
}

} // verus!
