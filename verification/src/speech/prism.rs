//! Looking for a screen reader that has gone, or that did not open: how often, and what the
//! search says when it is news. No clock and no screen reader here: times are milliseconds
//! since the search began, handed in by the searcher.
//!
//! A reader whose runtime check looks at the reader itself, running and refusing, is looked
//! for every 3 s for five minutes from the look that first saw it so, then every 10 s. A search
//! that finds none running (or only ZDSR or Boy PC Reader, whose check sees their background
//! services) looks every 3 s for a minute, then every 30 s.
use vstd::prelude::*;

use crate::text::{decimal, decimal_text, joined, same_text};
use vstd::string::StringExecFns;

verus! {

/// Looked for again this soon while the fast pace lasts.
pub const RETRY_SOON_MS: u64 = 3_000;
/// The pace for a reader that has run and refused for five minutes.
pub const RETRY_CAPPED_MS: u64 = 10_000;
/// The pace for a search that has found none running for a minute.
pub const RETRY_LATER_MS: u64 = 30_000;
/// How long a search that finds none running keeps the fast pace.
pub const RETRY_SOON_FOR_MS: u64 = 60_000;
/// How long a reader that runs and refuses keeps the fast pace.
pub const RUNNING_FAST_FOR_MS: u64 = 300_000;

/// The schedule, said the same way by every line that promises it.
pub const SCHEDULE: &'static str = "It is looked for again at once, then every 3 s for five minutes and every 10 s after that while a screen reader is running, and every 3 s for a minute and every 30 s after that while none is (ZDSR and Boy PC Reader count as none here: their check sees their background services).";

/// The start-up line when no screen reader opened.
pub const NOTHING_OPENED_AT_START: &'static str = "no screen reader would open, so the plain voice speaks. While \"Speak through the screen reader\" is on, a search follows at once and logs whether one is running and how often it looks.";

/// When to look again after a look that opened nothing.
pub open spec fn next_look_after(since: u64, running: bool) -> u64 {
    if running {
        if since < RUNNING_FAST_FOR_MS {
            RETRY_SOON_MS
        } else {
            RETRY_CAPPED_MS
        }
    } else {
        if since < RETRY_SOON_FOR_MS {
            RETRY_SOON_MS
        } else {
            RETRY_LATER_MS
        }
    }
}

/// When to look again after a look that opened nothing. For a reader that is `running` by its
/// own check, `since` is how long it has been seen running and refusing; otherwise how long the
/// search has been going.
pub fn next_look(since: u64, running: bool) -> (r: u64)
    ensures
        r == next_look_after(since, running),
{
    if running {
        if since < RUNNING_FAST_FOR_MS {
            RETRY_SOON_MS
        } else {
            RETRY_CAPPED_MS
        }
    } else if since < RETRY_SOON_FOR_MS {
        RETRY_SOON_MS
    } else {
        RETRY_LATER_MS
    }
}

/// The readers whose "running" is a look at the reader itself: NVDA's control endpoint, JAWS's
/// window and class factory, ZoomText's window, PC-Talker's status call, Sense Reader's window
/// and class factory.
pub open spec fn checked_by_the_reader(name: Seq<char>) -> bool {
    name == "NVDA"@ || name == "JAWS"@ || name == "ZoomText"@ || name == "PCTalker"@ || name == "SenseReader"@
}

pub fn is_checked_by_the_reader(name: &str) -> (r: bool)
    ensures
        r == checked_by_the_reader(name@),
{
    same_text(name, "NVDA") || same_text(name, "JAWS") || same_text(name, "ZoomText") || same_text(name, "PCTalker")
        || same_text(name, "SenseReader")
}

/// What a look that opened nothing saw, as far as the log and the pace care.
#[derive(Clone, Debug, PartialEq, Eq)]
pub enum Sighting {
    /// No screen reader is running.
    NoneRunning,
    /// `name` is running and would not open, with the error opening it gave.
    Refusing { name: String, why: String },
}

/// Whether two sightings are the same news: the error is left out, so a reader that
/// alternates between two errors is not news every look.
pub open spec fn same_news(a: Sighting, b: Sighting) -> bool {
    match (a, b) {
        (Sighting::NoneRunning, Sighting::NoneRunning) => true,
        (Sighting::Refusing { name: x, .. }, Sighting::Refusing { name: y, .. }) => x@ == y@,
        _ => false,
    }
}

/// A sighting keeps the running pace: a reader that runs by its own check and refuses.
pub open spec fn runs_own(seen: Sighting) -> bool {
    match seen {
        Sighting::Refusing { name, .. } => checked_by_the_reader(name@),
        Sighting::NoneRunning => false,
    }
}

impl Sighting {
    pub fn same_as(&self, other: &Sighting) -> (r: bool)
        ensures
            r == same_news(*self, *other),
    {
        match (self, other) {
            (Sighting::NoneRunning, Sighting::NoneRunning) => true,
            (Sighting::Refusing { name: a, .. }, Sighting::Refusing { name: b, .. }) => *a == *b,
            _ => false,
        }
    }
}

/// Whether a sighting keeps the running pace.
pub fn runs_by_its_own_check(seen: &Sighting) -> (r: bool)
    ensures
        r == runs_own(*seen),
{
    match seen {
        Sighting::Refusing { name, .. } => is_checked_by_the_reader(name.as_str()),
        Sighting::NoneRunning => false,
    }
}

/// A pace, in whole seconds, as the lines say it.
pub open spec fn secs(ms: u64) -> Seq<char> {
    decimal((ms / 1000) as nat)
}

/// The line a look logs when what it saw is news, by what it saw, whether that keeps the
/// running pace, and the pace chosen.
pub open spec fn news_line(seen: Sighting, running: bool, nap: u64) -> Seq<char> {
    match seen {
        Sighting::Refusing { name, why } => if running && nap == RETRY_SOON_MS {
            name@ + " is running but would not open ("@ + why@ + "), so the plain voice goes on speaking; looking again every "@
                + secs(RETRY_SOON_MS) + " s for five minutes, then every "@ + secs(RETRY_CAPPED_MS)
                + " s, for as long as it runs"@
        } else if running {
            name@ + " is running but would not open ("@ + why@ + "), so the plain voice goes on speaking; looking again every "@
                + secs(nap) + " s for as long as it runs"@
        } else {
            name@ + " would not open ("@ + why@ + "); some of its processes run, but they include its background services, so that does not say it is in use. The plain voice goes on speaking; looking again every "@
                + if nap == RETRY_SOON_MS {
                secs(RETRY_SOON_MS) + " s until a minute has passed, then every "@ + secs(RETRY_LATER_MS) + " s"@
            } else {
                secs(nap) + " s"@
            }
        },
        Sighting::NoneRunning => if nap == RETRY_SOON_MS {
            "no screen reader is running, so the plain voice goes on speaking; looking again every "@ + secs(
                RETRY_SOON_MS,
            ) + " s until a minute has passed, then every "@ + secs(RETRY_LATER_MS) + " s"@
        } else {
            "no screen reader is running, so the plain voice goes on speaking; looking again every "@ + secs(nap)
                + " s"@
        },
    }
}

/// The line a look logs when only the pace moved.
pub open spec fn pace_line(seen: Sighting, running: bool, nap: u64) -> Seq<char> {
    match seen {
        Sighting::Refusing { name, .. } => if running {
            name@ + " still would not open five minutes after it was first seen running; looking every "@ + secs(nap)
                + " s from now"@
        } else {
            name@ + " still would not open a minute after the search began; looking every "@ + secs(nap)
                + " s from now"@
        },
        Sighting::NoneRunning => "still no screen reader running a minute after the search began; looking every "@
            + secs(nap) + " s from now"@,
    }
}

fn secs_text(ms: u64) -> (r: String)
    ensures
        r@ == secs(ms),
{
    decimal_text(ms / 1000)
}

fn news_text(seen: &Sighting, running: bool, nap: u64) -> (r: String)
    ensures
        r@ == news_line(*seen, running, nap),
{
    match seen {
        Sighting::Refusing { name, why } => {
            if running && nap == RETRY_SOON_MS {
                let mut s = joined(name.as_str(), " is running but would not open (");
                s.append(why.as_str());
                s.append("), so the plain voice goes on speaking; looking again every ");
                s.append(secs_text(RETRY_SOON_MS).as_str());
                s.append(" s for five minutes, then every ");
                s.append(secs_text(RETRY_CAPPED_MS).as_str());
                s.append(" s, for as long as it runs");
                s
            } else if running {
                let mut s = joined(name.as_str(), " is running but would not open (");
                s.append(why.as_str());
                s.append("), so the plain voice goes on speaking; looking again every ");
                s.append(secs_text(nap).as_str());
                s.append(" s for as long as it runs");
                s
            } else {
                let mut s = joined(name.as_str(), " would not open (");
                s.append(why.as_str());
                s.append(
                    "); some of its processes run, but they include its background services, so that does not say it is in use. The plain voice goes on speaking; looking again every ",
                );
                let tail = if nap == RETRY_SOON_MS {
                    let mut t = secs_text(RETRY_SOON_MS);
                    t.append(" s until a minute has passed, then every ");
                    t.append(secs_text(RETRY_LATER_MS).as_str());
                    t.append(" s");
                    t
                } else {
                    let mut t = secs_text(nap);
                    t.append(" s");
                    t
                };
                let ghost before = s@;
                s.append(tail.as_str());
                assert(s@ == before + tail@);
                s
            }
        },
        Sighting::NoneRunning => {
            if nap == RETRY_SOON_MS {
                let mut s = <String as StringExecFns>::from_str(
                    "no screen reader is running, so the plain voice goes on speaking; looking again every ",
                );
                s.append(secs_text(RETRY_SOON_MS).as_str());
                s.append(" s until a minute has passed, then every ");
                s.append(secs_text(RETRY_LATER_MS).as_str());
                s.append(" s");
                s
            } else {
                let mut s = <String as StringExecFns>::from_str(
                    "no screen reader is running, so the plain voice goes on speaking; looking again every ",
                );
                s.append(secs_text(nap).as_str());
                s.append(" s");
                s
            }
        },
    }
}

fn pace_text(seen: &Sighting, running: bool, nap: u64) -> (r: String)
    ensures
        r@ == pace_line(*seen, running, nap),
{
    match seen {
        Sighting::Refusing { name, .. } => {
            if running {
                let mut s = joined(
                    name.as_str(),
                    " still would not open five minutes after it was first seen running; looking every ",
                );
                s.append(secs_text(nap).as_str());
                s.append(" s from now");
                s
            } else {
                let mut s = joined(name.as_str(), " still would not open a minute after the search began; looking every ");
                s.append(secs_text(nap).as_str());
                s.append(" s from now");
                s
            }
        },
        Sighting::NoneRunning => {
            let mut s = <String as StringExecFns>::from_str(
                "still no screen reader running a minute after the search began; looking every ",
            );
            s.append(secs_text(nap).as_str());
            s.append(" s from now");
            s
        },
    }
}

/// The searcher's memory of what it has said, so it logs changes and not looks.
pub struct Search {
    /// What the last look saw, or what was already said before the search began.
    pub last: Option<Sighting>,
    /// The wait chosen after the last look.
    pub nap: u64,
    /// When, since the search began, the last look's news was first seen.
    pub news_since: u64,
}

/// Whether what a look saw is news after `last`.
pub open spec fn is_news(last: Option<Sighting>, seen: Sighting) -> bool {
    !(last matches Some(l) && same_news(l, seen))
}

/// When the news of a look at `since` was first seen.
pub open spec fn news_from(s: Search, since: u64, seen: Sighting) -> u64 {
    if is_news(s.last, seen) {
        since
    } else {
        s.news_since
    }
}

/// The wait a look at `since` chooses.
pub open spec fn nap_after(s: Search, since: u64, seen: Sighting) -> u64 {
    if runs_own(seen) {
        next_look_after(
            if since >= news_from(s, since, seen) {
                (since - news_from(s, since, seen)) as u64
            } else {
                0
            },
            true,
        )
    } else {
        next_look_after(since, false)
    }
}

impl Search {
    /// With nothing said yet, so the first look is always logged.
    pub fn new() -> (s: Search)
        ensures
            s.last is None,
            s.nap == RETRY_SOON_MS,
            s.news_since == 0,
    {
        Search { last: None, nap: RETRY_SOON_MS, news_since: 0 }
    }

    /// After a look that opened nothing, `since` the search began: how long to wait before the
    /// next one, and the line to log when this look is news — what it saw, when that changed,
    /// or that the pace moved.
    pub fn after_look(&mut self, since: u64, seen: Sighting) -> (r: (u64, Option<String>))
        ensures
            r.0 == nap_after(*old(self), since, seen),
            final(self).nap == r.0,
            final(self).last == Some(seen),
            final(self).news_since == news_from(*old(self), since, seen),
            match r.1 {
                Some(line) => if is_news(old(self).last, seen) {
                    line@ == news_line(seen, runs_own(seen), r.0)
                } else {
                    r.0 != old(self).nap && line@ == pace_line(seen, runs_own(seen), r.0)
                },
                None => !is_news(old(self).last, seen) && r.0 == old(self).nap,
            },
    {
        let running = runs_by_its_own_check(&seen);
        let changed = match &self.last {
            Some(l) => !l.same_as(&seen),
            None => true,
        };
        if changed {
            self.news_since = since;
        }
        let nap = if running {
            next_look(since.saturating_sub(self.news_since), true)
        } else {
            next_look(since, false)
        };
        let line = if changed {
            Some(news_text(&seen, running, nap))
        } else if nap != self.nap {
            Some(pace_text(&seen, running, nap))
        } else {
            None
        };
        self.last = Some(seen);
        self.nap = nap;
        (nap, line)
    }
}

/// Why a searcher is out looking.
#[derive(Clone, Copy, PartialEq, Eq, Debug, Structural)]
pub enum Why {
    /// The screen reader in use stopped answering or refused a line.
    Lost,
    /// None opened when the application started.
    NoneAtStart,
    /// "Speak through the screen reader" was ticked again.
    Ticked,
}

/// Whether a searcher is sent out, and why, once the screen-reader path is out of service:
/// `retrying`, one was sent already; `stopped`, that one stopped because the setting was
/// switched off; `had_reader`, the worker serving the path has had a screen reader in hand. One
/// still looking is left alone.
pub open spec fn searcher_due_for(retrying: bool, stopped: bool, had_reader: bool) -> Option<Why> {
    if retrying && !stopped && !had_reader {
        None
    } else if stopped {
        Some(Why::Ticked)
    } else if had_reader {
        Some(Why::Lost)
    } else {
        Some(Why::NoneAtStart)
    }
}

pub fn searcher_due(retrying: bool, stopped: bool, had_reader: bool) -> (r: Option<Why>)
    ensures
        r == searcher_due_for(retrying, stopped, had_reader),
{
    if retrying && !stopped && !had_reader {
        return None;
    }
    Some(
        if stopped {
            Why::Ticked
        } else if had_reader {
            Why::Lost
        } else {
            Why::NoneAtStart
        },
    )
}

/// Whether a searcher has been sent to look for the screen reader since the path was last
/// healthy.
pub struct Retry {
    pub retrying: bool,
}

impl Retry {
    /// Nobody has been sent yet.
    pub fn new() -> (r: Retry)
        ensures
            !r.retrying,
    {
        Retry { retrying: false }
    }

    /// Asked on the event loop while speaking through the screen reader is wanted: a healthy
    /// path needs nobody; otherwise a searcher is sent when one is due ([`searcher_due`]) — the
    /// reason is returned, and the caller replaces the worker with a searcher — so asking twice
    /// never sends a second searcher while the first still looks.
    pub fn retry_if_due(&mut self, healthy: bool, stopped: bool, had_reader: bool) -> (r: Option<Why>)
        ensures
            healthy ==> r is None && !final(self).retrying,
            !healthy ==> r == searcher_due_for(old(self).retrying, stopped, had_reader) && final(self).retrying
                == (old(self).retrying || r is Some),
    {
        if healthy {
            self.retrying = false;
            return None;
        }
        let due = searcher_due(self.retrying, stopped, had_reader);
        if due.is_some() {
            self.retrying = true;
        }
        due
    }
}

/// The line a searcher logs when a screen reader opens, by why it was looking. One sent out
/// at start-up does not claim the reader was started after the application.
pub open spec fn found_text(why: Why, name: Seq<char>) -> Seq<char> {
    match why {
        Why::Lost => "back to "@ + name,
        Why::NoneAtStart => name + " is open now; speaking through it from now on"@,
        Why::Ticked => "speaking through "@ + name,
    }
}

pub fn found_line(why: Why, name: &str) -> (r: String)
    ensures
        r@ == found_text(why, name@),
{
    match why {
        Why::Lost => joined("back to ", name),
        Why::NoneAtStart => joined(name, " is open now; speaking through it from now on"),
        Why::Ticked => joined("speaking through ", name),
    }
}


/// How long a line may go unanswered before the screen-reader path is given up on: a call
/// into a wedged screen reader cannot be cancelled, so the deadline lives with the caller.
pub const STALL_MS: u64 = 300;
/// A line handed over longer ago than this is not worth saying any more.
pub const STALE_MS: u64 = 1_000;
/// A line slower than this is named in the log on its own.
pub const SLOW_LINE_MS: u64 = 150;

/// Where a batch of queued lines starts being said: at the last interrupting line, because
/// it makes stale everything queued before it (and not what follows it: a control's name
/// interrupting and its value straight after are both said); at the first line when none
/// interrupts.
pub open spec fn batch_start(interrupts: Seq<bool>) -> int
    decreases interrupts.len(),
{
    if interrupts.len() == 0 {
        0
    } else if interrupts.last() {
        interrupts.len() - 1
    } else {
        batch_start(interrupts.drop_last())
    }
}

pub fn first_to_say(interrupts: &Vec<bool>) -> (k: usize)
    ensures
        k == batch_start(interrupts@),
{
    let mut k: usize = 0;
    let mut i: usize = 0;
    while i < interrupts.len()
        invariant
            i <= interrupts@.len(),
            k == batch_start(interrupts@.take(i as int)),
        decreases interrupts@.len() - i,
    {
        assert(interrupts@.take(i + 1).drop_last() =~= interrupts@.take(i as int));
        if interrupts[i] {
            k = i;
        }
        i += 1;
    }
    assert(interrupts@.take(i as int) =~= interrupts@);
    k
}

/// Whether a line handed over `age_ms` ago is still worth saying another way.
pub fn worth_saying(age_ms: u64) -> (r: bool)
    ensures
        r == (age_ms < STALE_MS),
{
    age_ms < STALE_MS
}

/// Whether a line unanswered for `age_ms` has stalled the screen-reader path.
pub fn stalled_after(age_ms: u64) -> (r: bool)
    ensures
        r == (age_ms >= STALL_MS),
{
    age_ms >= STALL_MS
}

/// What the log says when the screen reader refused a line, naming the call that failed.
pub open spec fn refusal_text(name: Seq<char>, why: Seq<char>, braille_too: bool) -> Seq<char> {
    name + " refused a line ("@ + why + ", from the call that "@ + (if braille_too {
        "speaks it and writes it to the braille display"@
    } else {
        "speaks it"@
    }) + "), so that line and the ones after it go to the plain voice (OneCore or SAPI). "@ + SCHEDULE@
        + " Ticking \"Speak through the screen reader\" off and on again looks at once."@
}

pub fn refusal_line(name: &str, why: &str, braille_too: bool) -> (r: String)
    ensures
        r@ == refusal_text(name@, why@, braille_too),
{
    let mut s = joined(name, " refused a line (");
    s.append(why);
    s.append(", from the call that ");
    let what = if braille_too {
        "speaks it and writes it to the braille display"
    } else {
        "speaks it"
    };
    s.append(what);
    s.append("), so that line and the ones after it go to the plain voice (OneCore or SAPI). ");
    s.append(SCHEDULE);
    s.append(" Ticking \"Speak through the screen reader\" off and on again looks at once.");
    s
}

/// What the log says when a line has gone unanswered past the deadline.
pub open spec fn stall_text() -> Seq<char> {
    "the screen reader has not answered a line in "@ + decimal(STALL_MS as nat)
        + " ms, so that line and the ones after it go to the plain voice (OneCore or SAPI). The waiting call cannot be cancelled, so its thread is left where it is. "@
        + SCHEDULE@
}

pub fn stall_line() -> (r: String)
    ensures
        r@ == stall_text(),
{
    let mut s = joined("the screen reader has not answered a line in ", decimal_text(STALL_MS).as_str());
    s.append(
        " ms, so that line and the ones after it go to the plain voice (OneCore or SAPI). The waiting call cannot be cancelled, so its thread is left where it is. ",
    );
    s.append(SCHEDULE);
    s
}

/// What the log says of a line that took `took_ms` through `name`: the first line's time
/// always, a later one's only when it was slow.
pub open spec fn timing_text(name: Seq<char>, took_ms: u64, first_line: bool) -> Option<Seq<char>> {
    if first_line {
        Some("the first line through "@ + name + " took "@ + decimal(took_ms as nat) + " ms"@)
    } else if took_ms >= SLOW_LINE_MS {
        Some("a line through "@ + name + " took "@ + decimal(took_ms as nat) + " ms"@)
    } else {
        None
    }
}

pub fn timing_line(name: &str, took_ms: u64, first_line: bool) -> (r: Option<String>)
    ensures
        match (r, timing_text(name@, took_ms, first_line)) {
            (Some(a), Some(b)) => a@ == b,
            (None, None) => true,
            _ => false,
        },
{
    if first_line {
        let mut s = joined("the first line through ", name);
        s.append(" took ");
        s.append(decimal_text(took_ms).as_str());
        s.append(" ms");
        Some(s)
    } else if took_ms >= SLOW_LINE_MS {
        let mut s = joined("a line through ", name);
        s.append(" took ");
        s.append(decimal_text(took_ms).as_str());
        s.append(" ms");
        Some(s)
    } else {
        None
    }
}

} // verus!
