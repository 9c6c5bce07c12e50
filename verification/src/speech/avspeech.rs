//! The system voice's answers that are plain text and numbers: the installed voices as engines,
//! and why no Personal Voice dialog is coming when none is.
use vstd::prelude::*;

use crate::speech::engines::Engine;
use crate::text::{decimal, decimal_text, joined};
use vstd::string::StringExecFns;

verus! {

/// What `use("voiceover")` names: the one id that hands a line to the user's screen reader
/// rather than choosing a voice.
pub const VOICEOVER_ID: &'static str = "voiceover";

/// One installed voice, in the shape an engine needs.
#[derive(Clone, Debug, PartialEq, Eq)]
pub struct Voice {
    /// The system's own identifier, stable across sessions.
    pub id: String,
    /// What the voice calls itself: meant to be said, not parsed.
    pub name: String,
    /// A voice the user recorded of themselves.
    pub personal: bool,
}

/// Where this application stands with the user's Personal Voice, as the system reports it.
#[derive(Clone, Copy, Debug, PartialEq, Eq, Structural)]
pub enum PersonalVoice {
    /// Granted from the dialog.
    Granted,
    /// The system said no, and does not say why.
    Denied,
    /// This Mac cannot do it at all.
    Unsupported,
    /// Nobody has asked yet, or this system has no such question.
    NotAsked,
}

/// Why no dialog is coming on a Mac that cannot have a Personal Voice.
pub const UNSUPPORTED: &'static str = "macOS reports that this Mac does not support Personal Voice \u{2014} it needs macOS 14 on a Mac with Apple silicon. The setting stays on and changes nothing.";

/// How the explanation of a refusal begins.
pub const DENIED_HEAD: &'static str = "macOS answered 'denied' without showing a dialog. It gives that answer after a refusal, and whenever applications are not allowed to use a Personal Voice \u{2014} the switch for that is in System Settings > Accessibility > Personal Voice, named 'Allow applications to use your Personal Voice', and a Mac with no Personal Voice recorded has nothing to switch on.";

/// How the explanation of a refusal ends.
pub const DENIED_TAIL: &'static str = " If you have one and the switch is on, quit this application, open it again and tick this setting once more.";

/// What a refusal's explanation says when this application sees no Personal Voice.
pub const SEES_NONE: &'static str = " Right now this application can see no Personal Voice, which settles nothing: one only appears in its list once the application is allowed to use it.";

/// What it says when it sees one.
pub const SEES_ONE: &'static str = " Right now this application can see one Personal Voice.";

/// What a refusal's explanation says of the Personal Voices this application can see: nothing
/// before the voices were read once, since "none" would be a measurement never made.
pub open spec fn seen_text(seen: Option<usize>) -> Seq<char> {
    match seen {
        None => Seq::empty(),
        Some(n) => if n == 0 {
            SEES_NONE@
        } else if n == 1 {
            SEES_ONE@
        } else {
            " Right now this application can see "@ + decimal(n as nat) + " Personal Voices."@
        },
    }
}

/// Why no dialog is going to come, for the two answers that need explaining.
pub open spec fn explanation_of(v: PersonalVoice, seen: Option<usize>) -> Option<Seq<char>> {
    match v {
        PersonalVoice::Granted | PersonalVoice::NotAsked => None,
        PersonalVoice::Unsupported => Some(UNSUPPORTED@),
        PersonalVoice::Denied => Some(DENIED_HEAD@ + seen_text(seen) + DENIED_TAIL@),
    }
}

impl PersonalVoice {
    /// Why no dialog is going to come, when none is: `Denied` and `Unsupported` explained for
    /// the user, `None` for the two answers that need no explaining. `seen` is how many
    /// Personal Voices the last read of the installed voices found, `None` before the first.
    pub fn explanation(self, seen: Option<usize>) -> (r: Option<String>)
        ensures
            match explanation_of(self, seen) {
                Some(t) => r matches Some(s) && s@ == t,
                None => r is None,
            },
    {
        match self {
            PersonalVoice::Granted | PersonalVoice::NotAsked => None,
            PersonalVoice::Unsupported => Some(<String as StringExecFns>::from_str(UNSUPPORTED)),
            PersonalVoice::Denied => {
                let mut s = <String as StringExecFns>::from_str(DENIED_HEAD);
                match seen {
                    None => {},
                    Some(n) => {
                        if n == 0 {
                            s.append(SEES_NONE);
                        } else if n == 1 {
                            s.append(SEES_ONE);
                        } else {
                            s.append(" Right now this application can see ");
                            s.append(decimal_text(n as u64).as_str());
                            s.append(" Personal Voices.");
                        }
                    },
                }
                s.append(DENIED_TAIL);
                Some(s)
            },
        }
    }
}

/// The Personal Voices the last read of the installed voices counted, from the count as kept
/// between threads: `usize::MAX` until the voices were read once.
pub fn personal_voices_seen(stored: usize) -> (r: Option<usize>)
    ensures
        r == (if stored == usize::MAX {
            None
        } else {
            Some(stored)
        }),
{
    if stored == usize::MAX {
        None
    } else {
        Some(stored)
    }
}

/// How many of `voices` are personal.
pub fn personal_count(voices: &[Voice]) -> (n: usize)
    ensures
        n == voices@.filter(|v: Voice| v.personal).len(),
{
    let mut n: usize = 0;
    let mut i: usize = 0;
    proof {
        assert(voices@.take(0) =~= Seq::<Voice>::empty());
        assert(voices@.take(0).filter(|v: Voice| v.personal) =~= Seq::<Voice>::empty());
    }
    while i < voices.len()
        invariant
            i <= voices@.len(),
            n == voices@.take(i as int).filter(|v: Voice| v.personal).len(),
            n <= i,
        decreases voices@.len() - i,
    {
        proof {
            assert(voices@.take(i + 1).drop_last() =~= voices@.take(i as int));
            assert(voices@.take(i + 1).last() == voices@[i as int]);
            reveal(Seq::filter);
        }
        if voices[i].personal {
            n += 1;
        }
        i += 1;
    }
    proof {
        assert(voices@.take(i as int) =~= voices@);
    }
    n
}

/// Everything that could speak on a Mac: VoiceOver first — the user's own reader, available
/// while it runs — then every installed system voice, each usable by being in the list.
pub fn engines_on_macos(voiceover_running: bool, voices: &[Voice]) -> (r: Vec<Engine>)
    ensures
        r@.len() == voices@.len() + 1,
        r@[0].id@ == VOICEOVER_ID@,
        r@[0].name@ == "VoiceOver"@,
        r@[0].screen_reader,
        r@[0].available == voiceover_running,
        forall|i: int|
            #![trigger voices@[i]]
            0 <= i < voices@.len() ==> r@[i + 1].id == voices@[i].id && r@[i + 1].name == voices@[i].name
                && !r@[i + 1].screen_reader && r@[i + 1].available,
{
    let mut r: Vec<Engine> = Vec::new();
    r.push(
        Engine {
            id: <String as StringExecFns>::from_str(VOICEOVER_ID),
            name: <String as StringExecFns>::from_str("VoiceOver"),
            screen_reader: true,
            available: voiceover_running,
        },
    );
    let mut i: usize = 0;
    while i < voices.len()
        invariant
            i <= voices@.len(),
            r@.len() == i + 1,
            r@[0].id@ == VOICEOVER_ID@,
            r@[0].name@ == "VoiceOver"@,
            r@[0].screen_reader,
            r@[0].available == voiceover_running,
            forall|k: int|
                #![trigger voices@[k]]
                0 <= k < i ==> r@[k + 1].id == voices@[k].id && r@[k + 1].name == voices@[k].name
                    && !r@[k + 1].screen_reader && r@[k + 1].available,
        decreases voices@.len() - i,
    {
        let ghost before = r@;
        r.push(Engine { id: voices[i].id.clone(), name: voices[i].name.clone(), screen_reader: false, available: true });
        proof {
            assert forall|k: int| #![trigger voices@[k]] 0 <= k < i + 1 implies r@[k + 1].id == voices@[k].id
                && r@[k + 1].name == voices@[k].name && !r@[k + 1].screen_reader && r@[k + 1].available by {
                if k < i {
                    assert(r@[k + 1] == before[k + 1]);
                }
            }
        }
        i += 1;
    }
    proof {
        assert(i == voices@.len());
        assert(forall|k: int|
            #![trigger voices@[k]]
            0 <= k < voices@.len() ==> r@[k + 1].id == voices@[k].id && r@[k + 1].name == voices@[k].name
                && !r@[k + 1].screen_reader && r@[k + 1].available);
    }
    r
}

} // verus!
