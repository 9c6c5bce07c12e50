//! What can speak, and which of it each module VM chose to speak through.
use std::collections::HashMap;

use vstd::prelude::*;

use crate::text::same_text;

verus! {

broadcast use vstd::std_specs::hash::group_hash_axioms;

/// One thing that can speak: an `id` a module can compare and store, a `name` meant to be
/// said, whether it is the user's own screen reader or a plain voice, and whether it could
/// speak right now.
#[derive(Clone, Debug, PartialEq, Eq)]
pub struct Engine {
    pub id: String,
    pub name: String,
    pub screen_reader: bool,
    pub available: bool,
}

/// The first engine of `engines` with id `id`.
pub open spec fn engine_named(engines: Seq<Engine>, id: Seq<char>) -> Option<int>
    decreases engines.len(),
{
    if engines.len() == 0 {
        None
    } else {
        match engine_named(engines.drop_last(), id) {
            Some(i) => Some(i),
            None => if engines.last().id@ == id {
                Some(engines.len() - 1)
            } else {
                None
            },
        }
    }
}

/// Which engine each module VM chose for itself, by engine id: keyed by the VM, the unit the
/// API can honestly promise.
pub struct Choices {
    chosen: HashMap<usize, String>,
}

impl Choices {
    /// The choices, by VM.
    pub closed spec fn view(&self) -> Map<usize, String> {
        self.chosen@
    }

    /// No VM has chosen anything.
    pub fn new() -> (c: Choices)
        ensures
            c.view() == Map::<usize, String>::empty(),
    {
        Choices { chosen: HashMap::new() }
    }

    /// Chooses the engine VM `vm` speaks through (`Some` id), or returns it to the ordinary
    /// path (`None`). Refused, with nothing changed, when no engine of `engines` has that id
    /// or the first that has it could not speak now: accepting and then quietly speaking
    /// somewhere else would claim what cannot be honoured.
    pub fn use_engine(&mut self, vm: usize, id: Option<&str>, engines: &[Engine]) -> (ok: bool)
        ensures
            match id {
                None => ok && final(self).view() == old(self).view().remove(vm),
                Some(x) => match engine_named(engines@, x@) {
                    Some(i) => if engines@[i].available {
                        ok && final(self).view() == old(self).view().insert(vm, engines@[i].id)
                    } else {
                        !ok && final(self).view() == old(self).view()
                    },
                    None => !ok && final(self).view() == old(self).view(),
                },
            },
    {
        let x = match id {
            None => {
                self.chosen.remove(&vm);
                return true;
            },
            Some(x) => x,
        };
        let mut found: Option<usize> = None;
        let mut i: usize = 0;
        while i < engines.len()
            invariant
                i <= engines@.len(),
                match found {
                    Some(k) => k < i && engine_named(engines@.take(i as int), x@) == Some(k as int),
                    None => engine_named(engines@.take(i as int), x@) is None,
                },
            decreases engines@.len() - i,
        {
            proof {
                assert(engines@.take(i + 1).drop_last() =~= engines@.take(i as int));
            }
            if found.is_none() && same_text(engines[i].id.as_str(), x) {
                found = Some(i);
            }
            i += 1;
        }
        assert(engines@.take(i as int) =~= engines@);
        match found {
            None => false,
            Some(k) => {
                if !engines[k].available {
                    return false;
                }
                self.chosen.insert(vm, engines[k].id.clone());
                true
            },
        }
    }

    /// The engine VM `vm` chose, if it chose one.
    pub fn chosen_engine(&self, vm: usize) -> (r: Option<String>)
        ensures
            r == if self.view().contains_key(vm) {
                Some(self.view()[vm])
            } else {
                None::<String>
            },
    {
        match self.chosen.get(&vm) {
            Some(id) => Some(id.clone()),
            None => None,
        }
    }
}

/// Whether a switch was turned on since it was last seen: ticking a setting again is what
/// asks a failed path to try once more. `last` becomes what is seen now.
pub fn switched_on(last: &mut bool, on: bool) -> (edge: bool)
    ensures
        edge == (on && !*old(last)),
        *final(last) == on,
{
    let was = *last;
    *last = on;
    on && !was
}

} // verus!
