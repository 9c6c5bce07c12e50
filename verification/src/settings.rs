//! The portable settings store as the application holds it: per module, whether it is enabled
//! and its settings; and the application's own switches. Reading and writing the file is the
//! application's business; what a change does to the store, and what a rollback restores, is
//! here.
use vstd::prelude::*;

use crate::text::{
    begins_with, chars_of, debug_quoted, debug_text, ends_with, finishes_with, joined, same_text, starts_with,
    string_between, trim, trim_bounds,
};
use vstd::string::StringExecFns;

verus! {

/// A stored setting value. A number with a fraction is kept as the bits of its double: the
/// store keeps it and never computes with it.
#[derive(Debug, PartialEq)]
pub enum Value {
    Bool(bool),
    Int(i64),
    Float(u64),
    Str(String),
}

/// The pinned kind of a setting: whole numbers and fractions are both numbers.
#[derive(Clone, Copy, Debug, PartialEq, Eq, Structural)]
pub enum Kind {
    Bool,
    Number,
    Str,
}

pub open spec fn kind_of(v: Value) -> Kind {
    match v {
        Value::Bool(_) => Kind::Bool,
        Value::Int(_) | Value::Float(_) => Kind::Number,
        Value::Str(_) => Kind::Str,
    }
}

impl Value {
    pub fn kind(&self) -> (k: Kind)
        ensures
            k == kind_of(*self),
    {
        match self {
            Value::Bool(_) => Kind::Bool,
            Value::Int(_) | Value::Float(_) => Kind::Number,
            Value::Str(_) => Kind::Str,
        }
    }

    /// The text, for a text setting.
    pub fn as_str(&self) -> (r: Option<&str>)
        ensures
            match *self {
                Value::Str(s) => r matches Some(t) && t@ == s@,
                _ => r is None,
            },
    {
        match self {
            Value::Str(s) => Some(s.as_str()),
            _ => None,
        }
    }

    /// The same value.
    pub fn copied(&self) -> (r: Value)
        ensures
            r == *self,
    {
        match self {
            Value::Bool(b) => Value::Bool(*b),
            Value::Int(i) => Value::Int(*i),
            Value::Float(f) => Value::Float(*f),
            Value::Str(s) => Value::Str(s.clone()),
        }
    }
}

/// A list of (key, value) as the map it stands for.
pub open spec fn map_of<V>(s: Seq<(String, V)>) -> Map<Seq<char>, V>
    decreases s.len(),
{
    if s.len() == 0 {
        Map::empty()
    } else {
        map_of(s.drop_last()).insert(s.last().0@, s.last().1)
    }
}

/// No key is listed twice.
pub open spec fn unique_keys<V>(s: Seq<(String, V)>) -> bool {
    forall|i: int, j: int| 0 <= i < j < s.len() ==> s[i].0@ != s[j].0@
}

pub proof fn lemma_map_of<V>(s: Seq<(String, V)>)
    requires
        unique_keys(s),
    ensures
        forall|k: Seq<char>| #[trigger] map_of(s).dom().contains(k) <==> exists|i: int| 0 <= i < s.len() && s[i].0@ == k,
        forall|i: int| 0 <= i < s.len() ==> #[trigger] map_of(s)[s[i].0@] == s[i].1,
    decreases s.len(),
{
    if s.len() > 0 {
        let t = s.drop_last();
        lemma_map_of(t);
        assert forall|k: Seq<char>| #[trigger] map_of(s).dom().contains(k) <==> exists|i: int| 0 <= i < s.len() && s[i].0@ == k by {
            if map_of(t).dom().contains(k) {
                let i = choose|i: int| 0 <= i < t.len() && t[i].0@ == k;
                assert(s[i] == t[i]);
            }
            if exists|i: int| 0 <= i < s.len() && s[i].0@ == k {
                let i = choose|i: int| 0 <= i < s.len() && s[i].0@ == k;
                if i < t.len() {
                    assert(t[i] == s[i]);
                }
            }
        }
        assert forall|i: int| 0 <= i < s.len() implies #[trigger] map_of(s)[s[i].0@] == s[i].1 by {
            if i < t.len() {
                assert(t[i] == s[i]);
                assert(s[i].0@ != s.last().0@);
                assert(map_of(t)[t[i].0@] == t[i].1);
            }
        }
    }
}

pub proof fn lemma_map_of_update<V>(s: Seq<(String, V)>, i: int, v: V)
    requires
        unique_keys(s),
        0 <= i < s.len(),
    ensures
        unique_keys(s.update(i, (s[i].0, v))),
        map_of(s.update(i, (s[i].0, v))) =~= map_of(s).insert(s[i].0@, v),
{
    let u = s.update(i, (s[i].0, v));
    assert forall|a: int, b: int| 0 <= a < b < u.len() implies u[a].0@ != u[b].0@ by {
        assert(u[a].0 == s[a].0 && u[b].0 == s[b].0);
    }
    lemma_map_of(s);
    lemma_map_of(u);
    assert forall|k: Seq<char>| map_of(u).dom().contains(k) <==> map_of(s).insert(s[i].0@, v).dom().contains(k) by {
        if map_of(u).dom().contains(k) {
            let j = choose|j: int| 0 <= j < u.len() && u[j].0@ == k;
            assert(s[j].0@ == k);
        }
        if map_of(s).dom().contains(k) {
            let j = choose|j: int| 0 <= j < s.len() && s[j].0@ == k;
            assert(u[j].0@ == k);
        }
        if k == s[i].0@ {
            assert(u[i].0@ == k);
        }
    }
    assert forall|k: Seq<char>| map_of(u).dom().contains(k) implies map_of(u)[k] == map_of(s).insert(s[i].0@, v)[k] by {
        let j = choose|j: int| 0 <= j < u.len() && u[j].0@ == k;
        assert(map_of(u)[u[j].0@] == u[j].1);
        if j != i {
            assert(map_of(s)[s[j].0@] == s[j].1);
        }
    }
}

pub proof fn lemma_map_of_remove<V>(s: Seq<(String, V)>, i: int)
    requires
        unique_keys(s),
        0 <= i < s.len(),
    ensures
        unique_keys(s.remove(i)),
        map_of(s.remove(i)) =~= map_of(s).remove(s[i].0@),
{
    let u = s.remove(i);
    assert forall|k: int| 0 <= k < u.len() implies #[trigger] u[k] == if k < i { s[k] } else { s[k + 1] } by {}
    assert forall|a: int, b: int| 0 <= a < b < u.len() implies u[a].0@ != u[b].0@ by {
        let a0 = if a < i { a } else { a + 1 };
        let b0 = if b < i { b } else { b + 1 };
        assert(u[a] == s[a0] && u[b] == s[b0]);
    }
    lemma_map_of(s);
    lemma_map_of(u);
    assert forall|k: Seq<char>| map_of(u).dom().contains(k) <==> map_of(s).remove(s[i].0@).dom().contains(k) by {
        if map_of(u).dom().contains(k) {
            let j = choose|j: int| 0 <= j < u.len() && u[j].0@ == k;
            let j0 = if j < i { j } else { j + 1 };
            assert(u[j] == s[j0]);
        }
        if map_of(s).dom().contains(k) && k != s[i].0@ {
            let j = choose|j: int| 0 <= j < s.len() && s[j].0@ == k;
            if j < i {
                assert(u[j] == s[j]);
            } else {
                assert(u[j - 1] == s[j]);
            }
        }
    }
    assert forall|k: Seq<char>| map_of(u).dom().contains(k) implies map_of(u)[k] == map_of(s).remove(s[i].0@)[k] by {
        let j = choose|j: int| 0 <= j < u.len() && u[j].0@ == k;
        let j0 = if j < i { j } else { j + 1 };
        assert(u[j] == s[j0]);
        assert(map_of(u)[u[j].0@] == u[j].1);
        assert(map_of(s)[s[j0].0@] == s[j0].1);
    }
}

pub proof fn lemma_map_of_push<V>(s: Seq<(String, V)>, k: String, v: V)
    requires
        unique_keys(s),
        !map_of(s).dom().contains(k@),
    ensures
        unique_keys(s.push((k, v))),
        map_of(s.push((k, v))) == map_of(s).insert(k@, v),
{
    lemma_map_of(s);
    assert(s.push((k, v)).drop_last() =~= s);
    assert forall|a: int, b: int| 0 <= a < b < s.push((k, v)).len() implies s.push((k, v))[a].0@ != s.push((k, v))[b].0@ by {
        if b == s.len() {
            assert(s.push((k, v))[a] == s[a]);
        }
    }
}

/// Whether no key of `s` is listed twice.
pub fn keys_unique<V>(s: &Vec<(String, V)>) -> (r: bool)
    ensures
        r == unique_keys(s@),
{
    let mut j: usize = 0;
    while j < s.len()
        invariant
            j <= s@.len(),
            forall|a: int, b: int| 0 <= a < b < j ==> s@[a].0@ != s@[b].0@,
        decreases s@.len() - j,
    {
        let mut i: usize = 0;
        while i < j
            invariant
                i <= j < s@.len(),
                forall|a: int| 0 <= a < i ==> s@[a].0@ != s@[j as int].0@,
            decreases j - i,
        {
            if same_text(s[i].0.as_str(), s[j].0.as_str()) {
                return false;
            }
            i += 1;
        }
        j += 1;
    }
    true
}

/// Where key `k` is listed.
fn key_index<V>(s: &Vec<(String, V)>, k: &str) -> (r: Option<usize>)
    requires
        unique_keys(s@),
    ensures
        match r {
            Some(i) => i < s@.len() && s@[i as int].0@ == k@ && map_of(s@).dom().contains(k@) && map_of(s@)[k@]
                == s@[i as int].1,
            None => !map_of(s@).dom().contains(k@),
        },
{
    proof {
        lemma_map_of(s@);
    }
    let mut i: usize = 0;
    while i < s.len()
        invariant
            i <= s@.len(),
            unique_keys(s@),
            forall|j: int| 0 <= j < i ==> s@[j].0@ != k@,
        decreases s@.len() - i,
    {
        if same_text(s[i].0.as_str(), k) {
            proof {
                lemma_map_of(s@);
                assert(map_of(s@)[s@[i as int].0@] == s@[i as int].1);
            }
            return Some(i);
        }
        i += 1;
    }
    proof {
        lemma_map_of(s@);
        if map_of(s@).dom().contains(k@) {
            let j = choose|j: int| 0 <= j < s@.len() && s@[j].0@ == k@;
        }
    }
    None
}

/// One module's record: whether it is enabled, and its settings.
pub struct ModuleEntry {
    pub enabled: bool,
    pub settings: Vec<(String, Value)>,
}

/// A module's record as contracts speak of it.
pub open spec fn entry_view(e: ModuleEntry) -> (bool, Map<Seq<char>, Value>) {
    (e.enabled, map_of(e.settings@))
}

/// The whole store.
pub struct Store {
    pub schema_version: u32,
    /// The application's own settings, by name.
    pub app: Vec<(String, Value)>,
    /// Each module's record, by module id.
    pub modules: Vec<(String, ModuleEntry)>,
}

/// The records of `s`, by module id.
pub open spec fn modules_view(s: Seq<(String, ModuleEntry)>) -> Map<Seq<char>, (bool, Map<Seq<char>, Value>)> {
    Map::new(|k: Seq<char>| map_of(s).dom().contains(k), |k: Seq<char>| entry_view(map_of(s)[k]))
}

/// A record made for a module the store did not know: not enabled, and no settings.
pub open spec fn fresh_entry() -> (bool, Map<Seq<char>, Value>) {
    (false, Map::empty())
}

/// What the store holds for module `id`, or a fresh record.
pub open spec fn entry_or_fresh(m: Map<Seq<char>, (bool, Map<Seq<char>, Value>)>, id: Seq<char>) -> (bool, Map<Seq<char>, Value>) {
    if m.dom().contains(id) {
        m[id]
    } else {
        fresh_entry()
    }
}

/// What a snapshot of module `id`'s record holds: the record, or that there was none.
pub open spec fn snapshot_view(m: Map<Seq<char>, (bool, Map<Seq<char>, Value>)>, id: Seq<char>) -> Option<(bool, Map<Seq<char>, Value>)> {
    if m.dom().contains(id) {
        Some(m[id])
    } else {
        None
    }
}

/// The records once module `id`'s is put back to `e`: the record, or none at all.
pub open spec fn restore_view(
    m: Map<Seq<char>, (bool, Map<Seq<char>, Value>)>,
    id: Seq<char>,
    e: Option<(bool, Map<Seq<char>, Value>)>,
) -> Map<Seq<char>, (bool, Map<Seq<char>, Value>)> {
    match e {
        Some(v) => m.insert(id, v),
        None => m.remove(id),
    }
}

pub open spec fn entry_view_of(e: Option<ModuleEntry>) -> Option<(bool, Map<Seq<char>, Value>)> {
    match e {
        Some(x) => Some(entry_view(x)),
        None => None,
    }
}

/// The records once module `id`'s setting `key` is `v`.
pub open spec fn set_view(m: Map<Seq<char>, (bool, Map<Seq<char>, Value>)>, id: Seq<char>, key: Seq<char>, v: Value) -> Map<
    Seq<char>,
    (bool, Map<Seq<char>, Value>),
> {
    m.insert(id, (entry_or_fresh(m, id).0, entry_or_fresh(m, id).1.insert(key, v)))
}

/// Module `id`'s setting `key` in `m`.
pub open spec fn get_view(m: Map<Seq<char>, (bool, Map<Seq<char>, Value>)>, id: Seq<char>, key: Seq<char>) -> Option<Value> {
    if m.dom().contains(id) && m[id].1.dom().contains(key) {
        Some(m[id].1[key])
    } else {
        None
    }
}

impl Store {
    /// Every record is listed once, and every module's settings too.
    pub open spec fn wf(&self) -> bool {
        &&& unique_keys(self.app@)
        &&& unique_keys(self.modules@)
        &&& forall|i: int| 0 <= i < self.modules@.len() ==> unique_keys(#[trigger] self.modules@[i].1.settings@)
    }

    pub open spec fn app_view(&self) -> Map<Seq<char>, Value> {
        map_of(self.app@)
    }

    pub open spec fn modules_view(&self) -> Map<Seq<char>, (bool, Map<Seq<char>, Value>)> {
        modules_view(self.modules@)
    }

    /// Whether every record is listed once, and every module's settings too: what a store read
    /// from elsewhere must be before the other methods take it.
    pub fn is_well_formed(&self) -> (r: bool)
        ensures
            r == self.wf(),
    {
        if !keys_unique(&self.app) || !keys_unique(&self.modules) {
            return false;
        }
        let mut i: usize = 0;
        while i < self.modules.len()
            invariant
                i <= self.modules@.len(),
                forall|k: int| 0 <= k < i ==> unique_keys(#[trigger] self.modules@[k].1.settings@),
            decreases self.modules@.len() - i,
        {
            if !keys_unique(&self.modules[i].1.settings) {
                return false;
            }
            i += 1;
        }
        true
    }

    /// Nothing stored.
    pub fn empty() -> (s: Store)
        ensures
            s.wf(),
            s.schema_version == 1,
            s.app_view() == Map::<Seq<char>, Value>::empty(),
            s.modules_view() == Map::<Seq<char>, (bool, Map<Seq<char>, Value>)>::empty(),
    {
        let s = Store { schema_version: 1, app: Vec::new(), modules: Vec::new() };
        proof {
            assert(s.modules_view() =~= Map::<Seq<char>, (bool, Map<Seq<char>, Value>)>::empty());
        }
        s
    }

    /// One application setting as a switch, or `None` when it was never set as one.
    pub fn app_flag(&self, key: &str) -> (r: Option<bool>)
        requires
            self.wf(),
        ensures
            r == (if self.app_view().dom().contains(key@) {
                match self.app_view()[key@] {
                    Value::Bool(b) => Some(b),
                    _ => None,
                }
            } else {
                None
            }),
    {
        match key_index(&self.app, key) {
            Some(i) => match &self.app[i].1 {
                Value::Bool(b) => Some(*b),
                _ => None,
            },
            None => None,
        }
    }

    /// Records one application switch. Saving is the caller's business.
    pub fn set_app_flag(&mut self, key: &str, on: bool)
        requires
            old(self).wf(),
        ensures
            final(self).wf(),
            final(self).app_view() == old(self).app_view().insert(key@, Value::Bool(on)),
            final(self).modules_view() == old(self).modules_view(),
            final(self).schema_version == old(self).schema_version,
    {
        match key_index(&self.app, key) {
            Some(i) => {
                let ghost before = self.app@;
                let name = self.app[i].0.clone();
                self.app.set(i, (name, Value::Bool(on)));
                proof {
                    lemma_map_of_update(before, i as int, Value::Bool(on));
                    assert(self.app@ == before.update(i as int, (before[i as int].0, Value::Bool(on))));
                }
            },
            None => {
                let ghost before = self.app@;
                let name = <String as StringExecFns>::from_str(key);
                self.app.push((name, Value::Bool(on)));
                proof {
                    lemma_map_of_push(before, name, Value::Bool(on));
                }
            },
        }
    }

    /// Module `id`'s setting `key`, if it has one.
    pub fn get(&self, id: &str, key: &str) -> (r: Option<Value>)
        requires
            self.wf(),
        ensures
            r == get_view(self.modules_view(), id@, key@),
    {
        match key_index(&self.modules, id) {
            Some(i) => {
                let settings = &self.modules[i].1.settings;
                assert(unique_keys(self.modules@[i as int].1.settings@));
                match key_index(settings, key) {
                    Some(j) => Some(settings[j].1.copied()),
                    None => None,
                }
            },
            None => None,
        }
    }

    /// Where module `id`'s record is, made fresh when there was none.
    fn entry_index(&mut self, id: &str) -> (i: usize)
        requires
            old(self).wf(),
        ensures
            final(self).wf(),
            i < final(self).modules@.len(),
            final(self).modules@[i as int].0@ == id@,
            final(self).modules_view() == old(self).modules_view().insert(id@, entry_or_fresh(old(self).modules_view(), id@)),
            final(self).app == old(self).app,
            final(self).schema_version == old(self).schema_version,
    {
        let ghost before = self.modules@;
        proof {
            lemma_map_of(before);
        }
        match key_index(&self.modules, id) {
            Some(i) => {
                proof {
                    assert(self.modules_view() =~= self.modules_view().insert(id@, entry_or_fresh(self.modules_view(), id@)));
                }
                i
            },
            None => {
                let name = <String as StringExecFns>::from_str(id);
                let fresh = ModuleEntry { enabled: false, settings: Vec::new() };
                let ghost fv = fresh;
                self.modules.push((name, fresh));
                proof {
                    lemma_map_of_push(before, name, fv);
                    assert(entry_view(fv).1 =~= Map::<Seq<char>, Value>::empty());
                    assert(self.modules_view() =~= modules_view(before).insert(id@, fresh_entry()));
                    assert forall|k: int| 0 <= k < self.modules@.len() implies unique_keys(#[trigger] self.modules@[k].1.settings@) by {
                        if k < before.len() {
                            assert(self.modules@[k] == before[k]);
                        }
                    }
                }
                self.modules.len() - 1
            },
        }
    }

    /// Puts `e` in the place of record `i`, which keeps its id.
    fn replace_entry(&mut self, i: usize, e: ModuleEntry)
        requires
            old(self).wf(),
            i < old(self).modules@.len(),
            unique_keys(e.settings@),
        ensures
            final(self).wf(),
            final(self).modules_view() == old(self).modules_view().insert(old(self).modules@[i as int].0@, entry_view(e)),
            final(self).modules@[i as int].0 == old(self).modules@[i as int].0,
            final(self).app == old(self).app,
            final(self).schema_version == old(self).schema_version,
    {
        let ghost before = self.modules@;
        let (name, _gone) = self.modules.remove(i);
        let ghost ev = e;
        self.modules.insert(i, (name, e));
        proof {
            assert(self.modules@ =~= before.update(i as int, (before[i as int].0, ev)));
            lemma_map_of_update(before, i as int, ev);
            assert(self.modules_view() =~= modules_view(before).insert(before[i as int].0@, entry_view(ev)));
            assert forall|k: int| 0 <= k < self.modules@.len() implies unique_keys(#[trigger] self.modules@[k].1.settings@) by {
                if k != i {
                    assert(self.modules@[k] == before[k]);
                }
            }
        }
    }

    /// Sets module `id`'s setting `key`, returning the value it replaced. A module the store
    /// did not know gets a fresh record: not enabled, and no other settings.
    pub fn set(&mut self, id: &str, key: &str, value: Value) -> (r: Option<Value>)
        requires
            old(self).wf(),
        ensures
            final(self).wf(),
            final(self).modules_view() == set_view(old(self).modules_view(), id@, key@, value),
            r == (if entry_or_fresh(old(self).modules_view(), id@).1.dom().contains(key@) {
                Some(entry_or_fresh(old(self).modules_view(), id@).1[key@])
            } else {
                None
            }),
            final(self).app_view() == old(self).app_view(),
            final(self).schema_version == old(self).schema_version,
    {
        let ghost old_view = self.modules_view();
        let i = self.entry_index(id);
        let ghost mid = self.modules@;
        proof {
            lemma_map_of(mid);
            assert(unique_keys(mid[i as int].1.settings@));
            assert(map_of(mid)[mid[i as int].0@] == mid[i as int].1);
            assert(modules_view(mid).dom().contains(id@));
            assert(modules_view(mid)[id@] == entry_view(map_of(mid)[id@]));
            assert(entry_view(mid[i as int].1) == entry_or_fresh(old_view, id@));
        }
        let mut settings: Vec<(String, Value)> = Vec::new();
        let mut j: usize = 0;
        let n = self.modules[i].1.settings.len();
        while j < n
            invariant
                j <= n,
                n == mid[i as int].1.settings@.len(),
                self.modules@ == mid,
                i < mid.len(),
                settings@ == mid[i as int].1.settings@.take(j as int),
            decreases n - j,
        {
            let k = self.modules[i].1.settings[j].0.clone();
            let v = self.modules[i].1.settings[j].1.copied();
            settings.push((k, v));
            proof {
                assert(settings@ =~= mid[i as int].1.settings@.take(j + 1));
            }
            j += 1;
        }
        proof {
            assert(settings@ =~= mid[i as int].1.settings@);
        }
        let enabled = self.modules[i].1.enabled;
        let ghost s0 = settings@;
        let old_value = match key_index(&settings, key) {
            Some(q) => {
                let was = settings[q].1.copied();
                let k = settings[q].0.clone();
                settings.set(q, (k, value));
                proof {
                    lemma_map_of_update(s0, q as int, value);
                    assert(settings@ == s0.update(q as int, (s0[q as int].0, value)));
                }
                Some(was)
            },
            None => {
                let k = <String as StringExecFns>::from_str(key);
                settings.push((k, value));
                proof {
                    lemma_map_of_push(s0, k, value);
                }
                None
            },
        };
        self.replace_entry(i, ModuleEntry { enabled, settings });
        old_value
    }

    /// Marks module `id` enabled or not. A module the store did not know gets a fresh record
    /// with no settings.
    pub fn set_enabled(&mut self, id: &str, enabled: bool)
        requires
            old(self).wf(),
        ensures
            final(self).wf(),
            final(self).modules_view() == old(self).modules_view().insert(
                id@,
                (enabled, entry_or_fresh(old(self).modules_view(), id@).1),
            ),
            final(self).app_view() == old(self).app_view(),
            final(self).schema_version == old(self).schema_version,
    {
        let ghost old_view = self.modules_view();
        let i = self.entry_index(id);
        let ghost mid = self.modules@;
        proof {
            lemma_map_of(mid);
            assert(map_of(mid)[mid[i as int].0@] == mid[i as int].1);
            assert(modules_view(mid).dom().contains(id@));
            assert(modules_view(mid)[id@] == entry_view(map_of(mid)[id@]));
            assert(entry_view(mid[i as int].1) == entry_or_fresh(old_view, id@));
        }
        let e = self.modules[i].1.copied();
        let e2 = ModuleEntry { enabled, settings: e.settings };
        proof {
            assert(unique_keys(mid[i as int].1.settings@));
        }
        self.replace_entry(i, e2);
    }

    /// The record for `id`, if there is one: what a rollback puts back.
    pub fn snapshot(&self, id: &str) -> (r: Option<ModuleEntry>)
        requires
            self.wf(),
        ensures
            entry_view_of(r) == snapshot_view(self.modules_view(), id@),
            r matches Some(e) ==> unique_keys(e.settings@),
    {
        proof {
            lemma_map_of(self.modules@);
        }
        match key_index(&self.modules, id) {
            Some(i) => {
                proof {
                    assert(unique_keys(self.modules@[i as int].1.settings@));
                }
                Some(self.modules[i].1.copied())
            },
            None => None,
        }
    }

    /// Puts back a record [`Store::snapshot`] took: the prior record, or none at all — so the
    /// settings a failed load wrote are discarded.
    pub fn restore(&mut self, id: &str, entry: Option<ModuleEntry>)
        requires
            old(self).wf(),
            entry matches Some(e) ==> unique_keys(e.settings@),
        ensures
            final(self).wf(),
            final(self).modules_view() == restore_view(old(self).modules_view(), id@, entry_view_of(entry)),
            final(self).app_view() == old(self).app_view(),
            final(self).schema_version == old(self).schema_version,
    {
        match entry {
            Some(e) => {
                let i = self.entry_index(id);
                self.replace_entry(i, e);
                proof {
                    assert(self.modules_view() =~= old(self).modules_view().insert(id@, entry_view(e)));
                }
            },
            None => {
                let ghost before = self.modules@;
                match key_index(&self.modules, id) {
                    Some(i) => {
                        self.modules.remove(i);
                        proof {
                            lemma_map_of_remove(before, i as int);
                            assert(self.modules_view() =~= modules_view(before).remove(id@));
                            assert forall|k: int| 0 <= k < self.modules@.len() implies unique_keys(#[trigger] self.modules@[k].1.settings@) by {
                                if k < i {
                                    assert(self.modules@[k] == before[k]);
                                } else {
                                    assert(self.modules@[k] == before[k + 1]);
                                }
                            }
                        }
                    },
                    None => {
                        proof {
                            assert(self.modules_view() =~= self.modules_view().remove(id@));
                        }
                    },
                }
            },
        }
    }

    /// The ids of the modules the store has marked not enabled, each once, in the order the
    /// store lists them.
    pub fn disabled_ids(&self) -> (r: Vec<String>)
        requires
            self.wf(),
        ensures
            forall|a: int, b: int| 0 <= a < b < r@.len() ==> r@[a]@ != r@[b]@,
            forall|k: Seq<char>|
                (exists|a: int| 0 <= a < r@.len() && r@[a]@ == k) <==> (self.modules_view().dom().contains(k)
                    && !self.modules_view()[k].0),
    {
        proof {
            lemma_map_of(self.modules@);
        }
        let mut r: Vec<String> = Vec::new();
        let mut i: usize = 0;
        let ghost idx: Seq<int> = Seq::empty();
        while i < self.modules.len()
            invariant
                i <= self.modules@.len(),
                self.wf(),
                idx.len() == r@.len(),
                forall|a: int| 0 <= a < idx.len() ==> 0 <= #[trigger] idx[a] < i && r@[a] == self.modules@[idx[a]].0
                    && !self.modules@[idx[a]].1.enabled,
                forall|a: int, b: int| 0 <= a < b < idx.len() ==> idx[a] < idx[b],
                forall|q: int| 0 <= q < i && !self.modules@[q].1.enabled ==> exists|a: int| 0 <= a < idx.len() && idx[a] == q,
            decreases self.modules@.len() - i,
        {
            let ghost idx0 = idx;
            if !self.modules[i].1.enabled {
                r.push(self.modules[i].0.clone());
                proof {
                    idx = idx.push(i as int);
                    assert(idx[idx.len() - 1] == i);
                }
            }
            proof {
                assert forall|q: int| 0 <= q < i + 1 && !self.modules@[q].1.enabled implies exists|a: int| 0 <= a < idx.len() && idx[a] == q by {
                    if q == i {
                        assert(idx[idx.len() - 1] == i);
                    } else {
                        let a = choose|a: int| 0 <= a < idx0.len() && idx0[a] == q;
                        assert(idx[a] == idx0[a]);
                    }
                }
            }
            i += 1;
        }
        proof {
            let m = self.modules@;
            assert forall|a: int, b: int| 0 <= a < b < r@.len() implies r@[a]@ != r@[b]@ by {
                assert(idx[a] < idx[b]);
            }
            assert forall|k: Seq<char>|
                (exists|a: int| 0 <= a < r@.len() && r@[a]@ == k) <==> (self.modules_view().dom().contains(k)
                    && !self.modules_view()[k].0) by {
                if exists|a: int| 0 <= a < r@.len() && r@[a]@ == k {
                    let a = choose|a: int| 0 <= a < r@.len() && r@[a]@ == k;
                    assert(map_of(m)[m[idx[a]].0@] == m[idx[a]].1);
                }
                if self.modules_view().dom().contains(k) && !self.modules_view()[k].0 {
                    let q = choose|q: int| 0 <= q < m.len() && m[q].0@ == k;
                    assert(map_of(m)[m[q].0@] == m[q].1);
                    let a = choose|a: int| 0 <= a < idx.len() && idx[a] == q;
                    assert(r@[a]@ == k);
                }
            }
        }
        r
    }
}

impl ModuleEntry {
    /// The same record.
    pub fn copied(&self) -> (r: ModuleEntry)
        ensures
            r.enabled == self.enabled,
            r.settings@ == self.settings@,
    {
        let mut settings: Vec<(String, Value)> = Vec::new();
        let mut j: usize = 0;
        while j < self.settings.len()
            invariant
                j <= self.settings@.len(),
                settings@ == self.settings@.take(j as int),
            decreases self.settings@.len() - j,
        {
            settings.push((self.settings[j].0.clone(), self.settings[j].1.copied()));
            proof {
                assert(settings@ =~= self.settings@.take(j + 1));
            }
            j += 1;
        }
        proof {
            assert(settings@ =~= self.settings@);
        }
        ModuleEntry { enabled: self.enabled, settings }
    }
}

/// A rollback puts back what was there: once a record taken by a snapshot is restored,
/// whatever was written to that module meanwhile is gone — its record is the one the snapshot
/// saw, or there is none if there was none — and every other module's record is as it was
/// before the restore.
pub proof fn a_rollback_puts_back_what_was_there(
    before: Map<Seq<char>, (bool, Map<Seq<char>, Value>)>,
    after: Map<Seq<char>, (bool, Map<Seq<char>, Value>)>,
    id: Seq<char>,
)
    ensures
        restore_view(after, id, snapshot_view(before, id)).dom().contains(id) == before.dom().contains(id),
        before.dom().contains(id) ==> restore_view(after, id, snapshot_view(before, id))[id] == before[id],
        forall|k: Seq<char>|
            k != id ==> (#[trigger] restore_view(after, id, snapshot_view(before, id)).dom().contains(k)
                == after.dom().contains(k)) && (after.dom().contains(k) ==> restore_view(after, id, snapshot_view(before, id))[k]
                == after[k]),
{
}

/// A setting reads back as it was set, and setting one changes no other setting of the module
/// nor whether it is enabled.
pub proof fn a_setting_reads_back_as_set(
    m: Map<Seq<char>, (bool, Map<Seq<char>, Value>)>,
    id: Seq<char>,
    key: Seq<char>,
    v: Value,
)
    ensures
        get_view(set_view(m, id, key, v), id, key) == Some(v),
        forall|k: Seq<char>| k != key ==> #[trigger] get_view(set_view(m, id, key, v), id, k) == get_view(m, id, k),
        m.dom().contains(id) ==> set_view(m, id, key, v)[id].0 == m[id].0,
{
}

/// A line of `s`: its characters from `a` to `b`, with a line break or an end of the text on
/// each side and no line break within.
pub open spec fn is_line(s: Seq<char>, a: int, b: int) -> bool {
    &&& 0 <= a <= b <= s.len()
    &&& (a == 0 || s[a - 1] == '\n')
    &&& (b == s.len() || s[b] == '\n')
    &&& forall|k: int| a <= k < b ==> s[k] != '\n'
}

/// Whether a line of the old list of disabled modules names one: once the white space around
/// it is left out, it is neither empty nor a comment.
pub open spec fn names_a_module(line: Seq<char>) -> bool {
    trim(line).len() > 0 && trim(line)[0] != '#'
}

/// The ids that the lines of `s` ending before `end` name.
pub open spec fn listed_before(s: Seq<char>, end: int) -> Set<Seq<char>> {
    Set::new(
        |id: Seq<char>|
            exists|a: int, b: int|
                #![trigger is_line(s, a, b), trim(s.subrange(a, b))]
                is_line(s, a, b) && b < end && names_a_module(s.subrange(a, b)) && trim(s.subrange(a, b)) == id,
    )
}

/// The ids the old list of disabled modules names, one to a line.
pub open spec fn legacy_ids(s: Seq<char>) -> Set<Seq<char>> {
    listed_before(s, s.len() + 1int)
}

/// Each id of `ids` as a module that is not enabled and has no settings.
pub open spec fn all_disabled(ids: Set<Seq<char>>) -> Map<Seq<char>, (bool, Map<Seq<char>, Value>)> {
    Map::new(|id: Seq<char>| ids.contains(id), |id: Seq<char>| (false, Map::<Seq<char>, Value>::empty()))
}

/// The lines of `s` that end before `k + 1`, where the line from `start` to `k` is the one
/// a break at `k` (or the end at `k`) closes, are those ending before `start` and that one.
proof fn lemma_next_line(s: Seq<char>, start: int, k: int)
    requires
        0 <= start <= k <= s.len(),
        start == 0 || s[start - 1] == '\n',
        k == s.len() || s[k] == '\n',
        forall|q: int| start <= q < k ==> s[q] != '\n',
    ensures
        is_line(s, start, k),
        forall|a: int, b: int| is_line(s, a, b) && b < k + 1 ==> b < start || (a == start && b == k),
{
    assert forall|a: int, b: int| is_line(s, a, b) && b < k + 1 implies b < start || (a == start && b == k) by {
        if b >= start {
            if b < k {
                assert(s[b] != '\n');
            }
            if a < start {
                assert(s[start - 1] != '\n');
            }
            if a > start {
                assert(s[a - 1] != '\n');
            }
        }
    }
}

impl Store {
    /// The store an old list of disabled modules stands for: each module a line names (white
    /// space around it left out; empty lines and lines starting with `#` name none) marked not
    /// enabled, and nothing else.
    #[verifier::spinoff_prover]
    pub fn from_disabled_list(text: &str) -> (s: Store)
        ensures
            s.wf(),
            s.schema_version == 1,
            s.app_view() == Map::<Seq<char>, Value>::empty(),
            s.modules_view() == all_disabled(legacy_ids(text@)),
    {
        let cs = chars_of(text);
        let n = cs.len();
        let mut s = Store::empty();
        let mut start: usize = 0;
        let mut k: usize = 0;
        while k < n
            invariant
                cs@ == text@,
                n == cs@.len(),
                start <= k <= n,
                start == 0 || cs@[start - 1] == '\n',
                forall|q: int| start <= q < k ==> cs@[q] != '\n',
                s.wf(),
                s.schema_version == 1,
                s.app_view() == Map::<Seq<char>, Value>::empty(),
                s.modules_view() == all_disabled(listed_before(cs@, start as int)),
            decreases n - k,
        {
            if cs[k] == '\n' {
                take_line(&mut s, &cs, start, k);
                start = k + 1;
            }
            k += 1;
        }
        take_line(&mut s, &cs, start, n);
        proof {
            assert(listed_before(cs@, n + 1) =~= legacy_ids(text@));
        }
        s
    }
}

/// Marks the module the line of `cs` from `start` to `k` names, if it names one, not enabled.
fn take_line(s: &mut Store, cs: &Vec<char>, start: usize, k: usize)
    requires
        start <= k <= cs@.len(),
        start == 0 || cs@[start - 1] == '\n',
        k == cs@.len() || cs@[k as int] == '\n',
        forall|q: int| start <= q < k ==> cs@[q] != '\n',
        old(s).wf(),
        old(s).schema_version == 1,
        old(s).app_view() == Map::<Seq<char>, Value>::empty(),
        old(s).modules_view() == all_disabled(listed_before(cs@, start as int)),
    ensures
        final(s).wf(),
        final(s).schema_version == 1,
        final(s).app_view() == Map::<Seq<char>, Value>::empty(),
        final(s).modules_view() == all_disabled(listed_before(cs@, k + 1)),
{
    let ghost line = cs@.subrange(start as int, k as int);
    let (i, j) = trim_bounds(cs, start, k);
    proof {
        lemma_next_line(cs@, start as int, k as int);
    }
    if i < j && cs[i] != '#' {
        let id = string_between(cs, i, j);
        let ghost before = s.modules_view();
        s.set_enabled(id.as_str(), false);
        proof {
            assert(trim(line) == id@);
            assert(names_a_module(line));
            assert(listed_before(cs@, k + 1) =~= listed_before(cs@, start as int).insert(id@));
            assert(entry_or_fresh(before, id@).1 =~= Map::<Seq<char>, Value>::empty());
            assert(s.modules_view() =~= all_disabled(listed_before(cs@, k + 1)));
        }
    } else {
        proof {
            assert(!names_a_module(line));
            assert(listed_before(cs@, k + 1) =~= listed_before(cs@, start as int));
        }
    }
}

/// What an interrupted save leaves beside the store: `settings.<anything>.toml.tmp`.
pub open spec fn leftover_name(name: Seq<char>) -> bool {
    begins_with(name, "settings."@) && finishes_with(name, ".toml.tmp"@)
}

/// Whether the sweep at start-up removes an entry of the store's folder: a file whose name is
/// that of a leftover, known to be `min_age_ms` old at least. An entry whose age cannot be
/// told (`None`) is kept.
pub fn sweeps(name: &str, is_file: bool, age_ms: Option<u64>, min_age_ms: u64) -> (r: bool)
    ensures
        r == (leftover_name(name@) && is_file && (age_ms matches Some(a) && a >= min_age_ms)),
{
    let named = starts_with(name, "settings.") && ends_with(name, ".toml.tmp");
    let old_enough = match age_ms {
        Some(a) => a >= min_age_ms,
        None => false,
    };
    named && is_file && old_enough
}

/// How `{:?}` writes a kind.
pub open spec fn kind_name(k: Kind) -> Seq<char> {
    match k {
        Kind::Bool => "Bool"@,
        Kind::Number => "Number"@,
        Kind::Str => "Str"@,
    }
}

fn kind_text(k: Kind) -> (r: &'static str)
    ensures
        r@ == kind_name(k),
{
    match k {
        Kind::Bool => "Bool",
        Kind::Number => "Number",
        Kind::Str => "Str",
    }
}

/// The texts `cs` as `{:?}` writes them in a list, with ", " between them.
pub open spec fn debug_items(cs: Seq<Seq<char>>) -> Seq<char>
    decreases cs.len(),
{
    if cs.len() == 0 {
        Seq::empty()
    } else if cs.len() == 1 {
        debug_text(cs[0])
    } else {
        debug_items(cs.drop_last()) + ", "@ + debug_text(cs.last())
    }
}

/// A list of texts as `{:?}` writes it.
pub open spec fn debug_list(cs: Seq<Seq<char>>) -> Seq<char> {
    "["@ + debug_items(cs) + "]"@
}

/// A registered setting's schema, which validation and the settings window go by; it is not
/// stored. A bound is the bits of its double, as a `Value::Float` holds them.
pub struct Field {
    pub kind: Kind,
    pub label: String,
    pub default: Value,
    pub min: Option<u64>,
    pub max: Option<u64>,
    pub choices: Option<Vec<String>>,
}

/// The texts a field may take, when it names them.
pub open spec fn choices_view(c: Option<Vec<String>>) -> Option<Seq<Seq<char>>> {
    match c {
        Some(cs) => Some(cs@.map_values(|t: String| t@)),
        None => None,
    }
}

/// What validation says of `v` for a field of `kind` that may take `choices`, bounds on a
/// number aside: a value of another kind is refused first, then a text that is none of the
/// choices.
pub open spec fn kind_and_choice(kind: Kind, choices: Option<Seq<Seq<char>>>, v: Value) -> Result<(), Seq<char>> {
    if kind_of(v) != kind {
        Err("expected "@ + kind_name(kind) + ", got "@ + kind_name(kind_of(v)))
    } else {
        match (v, choices) {
            (Value::Str(t), Some(cs)) => if cs.contains(t@) {
                Ok(())
            } else {
                Err("must be one of "@ + debug_list(cs))
            },
            _ => Ok(()),
        }
    }
}

fn debug_list_text(cs: &Vec<String>) -> (r: String)
    ensures
        r@ == debug_list(cs@.map_values(|t: String| t@)),
{
    let ghost v = cs@.map_values(|t: String| t@);
    let mut r = <String as StringExecFns>::from_str("[");
    let mut i: usize = 0;
    while i < cs.len()
        invariant
            i <= cs@.len(),
            v == cs@.map_values(|t: String| t@),
            r@ == "["@ + debug_items(v.take(i as int)),
        decreases cs@.len() - i,
    {
        proof {
            assert(v.take(i + 1).drop_last() =~= v.take(i as int));
            assert(v.take(i + 1).last() == cs@[i as int]@);
            if i == 0 {
                assert(v.take(0) =~= Seq::<Seq<char>>::empty());
            }
        }
        if i > 0 {
            r.append(", ");
        }
        r.append(debug_quoted(cs[i].as_str()).as_str());
        i += 1;
    }
    proof {
        assert(v.take(cs@.len() as int) =~= v);
    }
    r.append("]");
    r
}

impl Field {
    /// What validating `v` against this field says before any bound on a number is compared:
    /// a value of another kind is refused, and so is a text that is none of the field's
    /// choices. A number of the field's kind passes here; its bounds are compared in floating
    /// point by the caller.
    pub fn check_kind_and_choice(&self, v: &Value) -> (r: Result<(), String>)
        ensures
            (r is Ok) == (kind_and_choice(self.kind, choices_view(self.choices), *v) is Ok),
            r matches Err(e) ==> kind_and_choice(self.kind, choices_view(self.choices), *v) == Err::<(), Seq<char>>(e@),
    {
        let k = v.kind();
        if k != self.kind {
            let a = joined("expected ", kind_text(self.kind));
            let b = joined(a.as_str(), ", got ");
            return Err(joined(b.as_str(), kind_text(k)));
        }
        match (v, &self.choices) {
            (Value::Str(t), Some(cs)) => {
                let ghost view = cs@.map_values(|c: String| c@);
                assert(choices_view(self.choices) == Some(view));
                let mut i: usize = 0;
                while i < cs.len()
                    invariant
                        i <= cs@.len(),
                        choices_view(self.choices) == Some(view),
                        *v == Value::Str(*t),
                        kind_of(*v) == self.kind,
                        view == cs@.map_values(|c: String| c@),
                        forall|q: int| 0 <= q < i ==> view[q] != t@,
                    decreases cs@.len() - i,
                {
                    if same_text(cs[i].as_str(), t.as_str()) {
                        proof {
                            assert(view[i as int] == t@);
                            assert(view.contains(t@));
                        }
                        return Ok(());
                    }
                    i += 1;
                }
                let list = debug_list_text(cs);
                Err(joined("must be one of ", list.as_str()))
            },
            _ => Ok(()),
        }
    }
}

} // verus!
