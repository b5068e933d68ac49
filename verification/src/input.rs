//! Keyboard and mouse-button state, and the named actions bound to keys
//! and buttons. Times are milliseconds of the caller's clock.

use vstd::prelude::*;
use std::collections::HashMap;

verus! {

broadcast use vstd::std_specs::hash::group_hash_axioms;

/// A key, by its code.
pub type KeyCode = u32;

/// A mouse button (0 left, 1 middle, 2 right).
pub type MouseButton = u8;

/// When a held key starts repeating, and how often it repeats then.
#[derive(Debug, Clone, Copy, PartialEq, Eq, Structural)]
pub struct KeyRepeatConfig {
    pub delay_ms: u64,
    pub interval_ms: u64,
}

/// Each name occurs once.
pub open spec fn names_distinct<T>(s: Seq<(String, T)>) -> bool {
    forall|i: int, j: int| 0 <= i < s.len() && 0 <= j < s.len() && i != j ==> (#[trigger] s[i]).0@ != (#[trigger] s[j]).0@
}

/// Each code occurs once.
pub open spec fn codes_distinct<T>(s: Seq<(KeyCode, T)>) -> bool {
    forall|i: int, j: int| 0 <= i < s.len() && 0 <= j < s.len() && i != j ==> (#[trigger] s[i]).0 != (#[trigger] s[j]).0
}

/// Each string occurs once.
pub open spec fn strings_distinct(s: Seq<String>) -> bool {
    forall|i: int, j: int| 0 <= i < s.len() && 0 <= j < s.len() && i != j ==> (#[trigger] s[i])@ != (#[trigger] s[j])@
}

/// `a` is one of the strings of `s`.
pub open spec fn has_name(s: Seq<String>, a: Seq<char>) -> bool {
    exists|i: int| 0 <= i < s.len() && (#[trigger] s[i])@ == a
}

/// Where `name` is among `names`.
fn position_of_name(names: &Vec<String>, name: &String) -> (r: Option<usize>)
    ensures
        r is None <==> !has_name(names@, name@),
        r matches Some(i) ==> i < names@.len() && names@[i as int]@ == name@,
{
    let mut i: usize = 0;
    while i < names.len()
        invariant
            i <= names@.len(),
            forall|j: int| 0 <= j < i ==> (#[trigger] names@[j])@ != name@,
        decreases names@.len() - i,
    {
        if names[i] == *name {
            return Some(i);
        }
        i = i + 1;
    }
    None
}

/// Where the entry named `name` is in `entries`.
fn entry_of<T>(entries: &Vec<(String, T)>, name: &String) -> (r: Option<usize>)
    ensures
        r is None <==> forall|j: int| 0 <= j < entries@.len() ==> (#[trigger] entries@[j]).0@ != name@,
        r matches Some(i) ==> i < entries@.len() && entries@[i as int].0@ == name@,
{
    let mut i: usize = 0;
    while i < entries.len()
        invariant
            i <= entries@.len(),
            forall|j: int| 0 <= j < i ==> (#[trigger] entries@[j]).0@ != name@,
        decreases entries@.len() - i,
    {
        if entries[i].0 == *name {
            return Some(i);
        }
        i = i + 1;
    }
    None
}

/// Adds `name` to `names` unless it is there.
fn add_name(names: &mut Vec<String>, name: String)
    requires
        strings_distinct(old(names)@),
    ensures
        strings_distinct(final(names)@),
        forall|a: Seq<char>| has_name(final(names)@, a) <==> (has_name(old(names)@, a) || a == name@),
{
    if position_of_name(names, &name).is_none() {
        let ghost before = names@;
        let ghost added = name@;
        names.push(name);
        proof {
            assert forall|a: Seq<char>| has_name(names@, a) <==> (has_name(before, a) || a == added) by {
                if has_name(before, a) {
                    let i = choose|i: int| 0 <= i < before.len() && (#[trigger] before[i])@ == a;
                    assert(names@[i] == before[i]);
                }
                if a == added {
                    assert(names@[before.len() as int]@ == a);
                }
                if has_name(names@, a) {
                    let i = choose|i: int| 0 <= i < names@.len() && (#[trigger] names@[i])@ == a;
                    if i < before.len() {
                        assert(names@[i] == before[i]);
                    }
                }
            }
        }
    }
}

/// A copy of `names`.
fn copy_names(names: &Vec<String>) -> (r: Vec<String>)
    ensures
        r@.len() == names@.len(),
        forall|i: int| 0 <= i < names@.len() ==> (#[trigger] r@[i])@ == names@[i]@,
{
    let mut r: Vec<String> = Vec::new();
    let mut i: usize = 0;
    while i < names.len()
        invariant
            i <= names@.len(),
            r@.len() == i,
            forall|j: int| 0 <= j < i ==> (#[trigger] r@[j])@ == names@[j]@,
        decreases names@.len() - i,
    {
        r.push(names[i].clone());
        i = i + 1;
    }
    r
}

/// Whether key `x` is among `v`.
fn has_key(v: &Vec<KeyCode>, x: KeyCode) -> (r: bool)
    ensures
        r == v@.contains(x),
{
    let mut i: usize = 0;
    while i < v.len()
        invariant
            i <= v@.len(),
            forall|j: int| 0 <= j < i ==> v@[j] != x,
        decreases v@.len() - i,
    {
        if v[i] == x {
            assert(v@[i as int] == x);
            return true;
        }
        i = i + 1;
    }
    false
}

/// Whether button `x` is among `v`.
fn has_button(v: &Vec<MouseButton>, x: MouseButton) -> (r: bool)
    ensures
        r == v@.contains(x),
{
    let mut i: usize = 0;
    while i < v.len()
        invariant
            i <= v@.len(),
            forall|j: int| 0 <= j < i ==> v@[j] != x,
        decreases v@.len() - i,
    {
        if v[i] == x {
            assert(v@[i as int] == x);
            return true;
        }
        i = i + 1;
    }
    false
}

/// Which keys and actions are bound together.
#[derive(Debug, Clone)]
pub struct KeyConfig {
    /// Each action with the keys that trigger it.
    pub key_bindings: Vec<(String, Vec<KeyCode>)>,
    /// Each action with the mouse buttons that trigger it.
    pub mouse_bindings: Vec<(String, Vec<MouseButton>)>,
    /// Keys that repeat while held, with their timing.
    pub key_repeat: Vec<(KeyCode, KeyRepeatConfig)>,
}

impl KeyConfig {
    /// Each action and each repeating key has one entry.
    pub open spec fn wf(self) -> bool {
        &&& names_distinct(self.key_bindings@)
        &&& names_distinct(self.mouse_bindings@)
        &&& codes_distinct(self.key_repeat@)
    }

    /// Key `k` triggers action `a`.
    pub open spec fn key_bound(self, a: Seq<char>, k: KeyCode) -> bool {
        exists|i: int|
            0 <= i < self.key_bindings@.len() && (#[trigger] self.key_bindings@[i]).0@ == a
                && self.key_bindings@[i].1@.contains(k)
    }

    /// Mouse button `b` triggers action `a`.
    pub open spec fn button_bound(self, a: Seq<char>, b: MouseButton) -> bool {
        exists|i: int|
            0 <= i < self.mouse_bindings@.len() && (#[trigger] self.mouse_bindings@[i]).0@ == a
                && self.mouse_bindings@[i].1@.contains(b)
    }

    /// `after` binds what `self` binds, and key `k` to action `a` too.
    pub open spec fn with_key(self, after: KeyConfig, a: Seq<char>, k: KeyCode) -> bool {
        forall|b: Seq<char>, j: KeyCode|
            #[trigger] after.key_bound(b, j) <==> self.key_bound(b, j) || (b == a && j == k)
    }

    /// `after` binds what `self` binds, but key `k` no longer to action `a`.
    pub open spec fn without_key(self, after: KeyConfig, a: Seq<char>, k: KeyCode) -> bool {
        forall|b: Seq<char>, j: KeyCode|
            #[trigger] after.key_bound(b, j) <==> self.key_bound(b, j) && !(b == a && j == k)
    }

    /// The repeat timing of key `k`, if it repeats.
    pub open spec fn repeat_of(self, k: KeyCode) -> Option<KeyRepeatConfig> {
        if exists|i: int| 0 <= i < self.key_repeat@.len() && (#[trigger] self.key_repeat@[i]).0 == k {
            Some(self.key_repeat@[choose|i: int| 0 <= i < self.key_repeat@.len() && (#[trigger] self.key_repeat@[i]).0 == k].1)
        } else {
            None
        }
    }
}

/// The time recorded for `a` in `s`, if any.
pub open spec fn time_of(s: Seq<(String, u64)>, a: Seq<char>) -> Option<u64> {
    if exists|i: int| 0 <= i < s.len() && (#[trigger] s[i]).0@ == a {
        Some(s[choose|i: int| 0 <= i < s.len() && (#[trigger] s[i]).0@ == a].1)
    } else {
        None
    }
}

/// With each name once, the time of a listed name is the one listed.
pub proof fn lemma_time_of(s: Seq<(String, u64)>, j: int)
    requires
        names_distinct(s),
        0 <= j < s.len(),
    ensures
        time_of(s, s[j].0@) == Some(s[j].1),
{
    let i = choose|i: int| 0 <= i < s.len() && (#[trigger] s[i]).0@ == s[j].0@;
    assert(s[i].0@ == s[j].0@);
}

/// Records time `t` for `name`, replacing an earlier one.
fn put_time(times: &mut Vec<(String, u64)>, name: String, t: u64)
    requires
        names_distinct(old(times)@),
    ensures
        names_distinct(final(times)@),
        forall|a: Seq<char>| #[trigger] time_of(final(times)@, a) == if a == name@ {
            Some(t)
        } else {
            time_of(old(times)@, a)
        },
{
    let ghost before = times@;
    match entry_of(times, &name) {
        Some(i) => {
            let ghost key = times@[i as int].0;
            times.set(i, (name, t));
            proof {
                assert forall|a: Seq<char>| #[trigger] time_of(times@, a) == if a == key@ {
                    Some(t)
                } else {
                    time_of(before, a)
                } by {
                    if a == key@ {
                        lemma_time_of(times@, i as int);
                    } else {
                        if exists|k: int| 0 <= k < before.len() && (#[trigger] before[k]).0@ == a {
                            let k = choose|k: int| 0 <= k < before.len() && (#[trigger] before[k]).0@ == a;
                            assert(k != i);
                            assert(times@[k] == before[k]);
                            lemma_time_of(before, k);
                            lemma_time_of(times@, k);
                        } else {
                            assert forall|k: int| 0 <= k < times@.len() implies (#[trigger] times@[k]).0@ != a by {
                                if k != i {
                                    assert(times@[k] == before[k]);
                                }
                            }
                        }
                    }
                }
            }
        },
        None => {
            let ghost added = name@;
            times.push((name, t));
            proof {
                assert forall|a: Seq<char>| #[trigger] time_of(times@, a) == if a == added {
                    Some(t)
                } else {
                    time_of(before, a)
                } by {
                    if a == added {
                        lemma_time_of(times@, before.len() as int);
                    } else {
                        if exists|k: int| 0 <= k < before.len() && (#[trigger] before[k]).0@ == a {
                            let k = choose|k: int| 0 <= k < before.len() && (#[trigger] before[k]).0@ == a;
                            assert(times@[k] == before[k]);
                            lemma_time_of(before, k);
                            lemma_time_of(times@, k);
                        } else {
                            assert forall|k: int| 0 <= k < times@.len() implies (#[trigger] times@[k]).0@ != a by {
                                if k < before.len() {
                                    assert(times@[k] == before[k]);
                                }
                            }
                        }
                    }
                }
            }
        },
    }
}

/// The action state: what is bound, what is active now and was in the
/// previous frame, since when each action runs, and which actions have
/// had a value.
#[derive(Debug, Clone)]
pub struct ActionMapping {
    pub config: KeyConfig,
    pub active_actions: Vec<String>,
    pub previous_actions: Vec<String>,
    /// When each action last became active.
    pub action_start_time: Vec<(String, u64)>,
    /// The actions that have been active once: their value is full.
    pub valued_actions: Vec<String>,
}

impl ActionMapping {
    /// Each action is listed once in each list.
    pub open spec fn wf(self) -> bool {
        &&& self.config.wf()
        &&& strings_distinct(self.active_actions@)
        &&& strings_distinct(self.previous_actions@)
        &&& names_distinct(self.action_start_time@)
        &&& strings_distinct(self.valued_actions@)
    }

    pub open spec fn active(self, a: Seq<char>) -> bool {
        has_name(self.active_actions@, a)
    }

    pub open spec fn was_active(self, a: Seq<char>) -> bool {
        has_name(self.previous_actions@, a)
    }

    pub open spec fn valued(self, a: Seq<char>) -> bool {
        has_name(self.valued_actions@, a)
    }

    pub open spec fn start_of(self, a: Seq<char>) -> Option<u64> {
        time_of(self.action_start_time@, a)
    }

    /// Nothing bound, nothing active.
    pub fn new() -> (r: ActionMapping)
        ensures
            r.wf(),
            r.config.key_bindings@.len() == 0,
            r.config.mouse_bindings@.len() == 0,
            r.config.key_repeat@.len() == 0,
            r.active_actions@.len() == 0,
            r.previous_actions@.len() == 0,
            r.action_start_time@.len() == 0,
            r.valued_actions@.len() == 0,
    {
        ActionMapping {
            config: KeyConfig { key_bindings: Vec::new(), mouse_bindings: Vec::new(), key_repeat: Vec::new() },
            active_actions: Vec::new(),
            previous_actions: Vec::new(),
            action_start_time: Vec::new(),
            valued_actions: Vec::new(),
        }
    }

    /// Makes key `key_code` trigger `action`.
    pub fn bind_key(&mut self, action: &str, key_code: KeyCode) -> (r: &mut Self)
        requires
            old(self).wf(),
        ensures
            r.wf(),
            old(self).config.with_key(r.config, action@, key_code),
            r.config.mouse_bindings == old(self).config.mouse_bindings,
            r.config.key_repeat == old(self).config.key_repeat,
            *r == (ActionMapping { config: r.config, ..*old(self) }),
            *final(self) == *final(r),
    {
        let name = String::from_str(action);
        let ghost before = self.config.key_bindings@;
        match entry_of(&self.config.key_bindings, &name) {
            Some(i) => {
                if !has_key(&self.config.key_bindings[i].1, key_code) {
                    self.config.key_bindings[i].1.push(key_code);
                }
                proof {
                    let after = self.config.key_bindings@;
                    assert forall|j: int| 0 <= j < after.len() && j != i implies after[j] == before[j] by {}
                    assert forall|a: Seq<char>, k: KeyCode|
                        #[trigger] self.config.key_bound(a, k) <==> old(self).config.key_bound(a, k) || (a
                            == action@ && k == key_code) by {
                        if self.config.key_bound(a, k) {
                            let j = choose|j: int|
                                0 <= j < after.len() && (#[trigger] after[j]).0@ == a && after[j].1@.contains(k);
                            if j != i {
                                assert(after[j] == before[j]);
                            } else if k != key_code {
                                let t = choose|t: int| 0 <= t < after[j].1@.len() && after[j].1@[t] == k;
                                if t < before[j].1@.len() {
                                    assert(after[j].1@[t] == before[j].1@[t]);
                                    assert(before[j].1@.contains(k));
                                } else {
                                    assert(after[j].1@[t] == key_code);
                                }
                            }
                        }
                        if old(self).config.key_bound(a, k) {
                            let j = choose|j: int|
                                0 <= j < before.len() && (#[trigger] before[j]).0@ == a && before[j].1@.contains(k);
                            let t = choose|t: int| 0 <= t < before[j].1@.len() && before[j].1@[t] == k;
                            if j == i {
                                assert(after[j].1@[t] == k);
                            } else {
                                assert(after[j] == before[j]);
                            }
                        }
                        if a == action@ && k == key_code {
                            if before[i as int].1@.contains(key_code) {
                                let t = choose|t: int| 0 <= t < before[i as int].1@.len() && before[i as int].1@[t] == k;
                                assert(after[i as int].1@[t] == k);
                            } else {
                                assert(after[i as int].1@[before[i as int].1@.len() as int] == k);
                            }
                        }
                    }
                }
            },
            None => {
                let mut codes: Vec<KeyCode> = Vec::new();
                codes.push(key_code);
                self.config.key_bindings.push((name, codes));
                proof {
                    let after = self.config.key_bindings@;
                    assert forall|a: Seq<char>, k: KeyCode|
                        #[trigger] self.config.key_bound(a, k) <==> old(self).config.key_bound(a, k) || (a
                            == action@ && k == key_code) by {
                        if self.config.key_bound(a, k) {
                            let j = choose|j: int|
                                0 <= j < after.len() && (#[trigger] after[j]).0@ == a && after[j].1@.contains(k);
                            if j < before.len() {
                                assert(after[j] == before[j]);
                            } else {
                                let t = choose|t: int| 0 <= t < after[j].1@.len() && after[j].1@[t] == k;
                            }
                        }
                        if old(self).config.key_bound(a, k) {
                            let j = choose|j: int|
                                0 <= j < before.len() && (#[trigger] before[j]).0@ == a && before[j].1@.contains(k);
                            assert(after[j] == before[j]);
                        }
                        if a == action@ && k == key_code {
                            assert(after[before.len() as int].1@[0] == k);
                        }
                    }
                }
            },
        }
        self
    }
}

/// Where key `k` has its repeat entry in `entries`.
fn repeat_index(entries: &Vec<(KeyCode, KeyRepeatConfig)>, k: KeyCode) -> (r: Option<usize>)
    ensures
        r is None <==> forall|j: int| 0 <= j < entries@.len() ==> (#[trigger] entries@[j]).0 != k,
        r matches Some(i) ==> i < entries@.len() && entries@[i as int].0 == k,
{
    let mut i: usize = 0;
    while i < entries.len()
        invariant
            i <= entries@.len(),
            forall|j: int| 0 <= j < i ==> (#[trigger] entries@[j]).0 != k,
        decreases entries@.len() - i,
    {
        if entries[i].0 == k {
            return Some(i);
        }
        i = i + 1;
    }
    None
}

/// `codes` without `x`.
fn without_key(codes: &Vec<KeyCode>, x: KeyCode) -> (r: Vec<KeyCode>)
    ensures
        forall|k: KeyCode| r@.contains(k) <==> (codes@.contains(k) && k != x),
{
    let mut r: Vec<KeyCode> = Vec::new();
    let mut i: usize = 0;
    while i < codes.len()
        invariant
            i <= codes@.len(),
            forall|k: KeyCode| r@.contains(k) <==> (codes@.take(i as int).contains(k) && k != x),
        decreases codes@.len() - i,
    {
        let c = codes[i];
        let ghost before = r@;
        if c != x {
            r.push(c);
        }
        proof {
            assert(codes@.take(i + 1) =~= codes@.take(i as int).push(c));
            assert forall|k: KeyCode| r@.contains(k) <==> (codes@.take(i + 1).contains(k) && k != x) by {
                crate::game::minesweeper::lemma_push_contains(codes@.take(i as int), c, k);
                if c != x {
                    crate::game::minesweeper::lemma_push_contains(before, c, k);
                }
            }
        }
        i = i + 1;
    }
    proof {
        assert(codes@.take(i as int) =~= codes@);
    }
    r
}

impl ActionMapping {
    /// Stops key `key_code` from triggering `action`.
    pub fn unbind_key(&mut self, action: &str, key_code: KeyCode) -> (r: &mut Self)
        requires
            old(self).wf(),
        ensures
            r.wf(),
            old(self).config.without_key(r.config, action@, key_code),
            r.config.mouse_bindings == old(self).config.mouse_bindings,
            r.config.key_repeat == old(self).config.key_repeat,
            *r == (ActionMapping { config: r.config, ..*old(self) }),
            *final(self) == *final(r),
    {
        let name = String::from_str(action);
        let ghost before = self.config.key_bindings@;
        match entry_of(&self.config.key_bindings, &name) {
            Some(i) => {
                let kept = without_key(&self.config.key_bindings[i].1, key_code);
                self.config.key_bindings[i].1 = kept;
                proof {
                    let after = self.config.key_bindings@;
                    assert forall|j: int| 0 <= j < after.len() && j != i implies after[j] == before[j] by {}
                    assert forall|a: Seq<char>, k: KeyCode|
                        #[trigger] self.config.key_bound(a, k) <==> old(self).config.key_bound(a, k) && !(a
                            == action@ && k == key_code) by {
                        if self.config.key_bound(a, k) {
                            let j = choose|j: int|
                                0 <= j < after.len() && (#[trigger] after[j]).0@ == a && after[j].1@.contains(k);
                            if j != i {
                                assert(after[j] == before[j]);
                            } else {
                                assert(before[j].1@.contains(k));
                            }
                        }
                        if old(self).config.key_bound(a, k) && !(a == action@ && k == key_code) {
                            let j = choose|j: int|
                                0 <= j < before.len() && (#[trigger] before[j]).0@ == a && before[j].1@.contains(k);
                            if j == i {
                                assert(after[j].1@.contains(k));
                            } else {
                                assert(after[j] == before[j]);
                            }
                        }
                    }
                }
            },
            None => {
                proof {
                    assert forall|a: Seq<char>, k: KeyCode|
                        #[trigger] self.config.key_bound(a, k) <==> old(self).config.key_bound(a, k) && !(a
                            == action@ && k == key_code) by {
                        if self.config.key_bound(a, k) && a == action@ {
                            let j = choose|j: int|
                                0 <= j < before.len() && (#[trigger] before[j]).0@ == a && before[j].1@.contains(k);
                        }
                    }
                }
            },
        }
        self
    }

    /// Makes mouse button `button` trigger `action`.
    pub fn bind_mouse_button(&mut self, action: &str, button: MouseButton) -> (r: &mut Self)
        requires
            old(self).wf(),
        ensures
            r.wf(),
            forall|a: Seq<char>, b: MouseButton|
                #[trigger] r.config.button_bound(a, b) <==> old(self).config.button_bound(a, b) || (a == action@
                    && b == button),
            r.config.key_bindings == old(self).config.key_bindings,
            r.config.key_repeat == old(self).config.key_repeat,
            *r == (ActionMapping { config: r.config, ..*old(self) }),
            *final(self) == *final(r),
    {
        let name = String::from_str(action);
        let ghost before = self.config.mouse_bindings@;
        match entry_of(&self.config.mouse_bindings, &name) {
            Some(i) => {
                if !has_button(&self.config.mouse_bindings[i].1, button) {
                    self.config.mouse_bindings[i].1.push(button);
                }
                proof {
                    let after = self.config.mouse_bindings@;
                    assert forall|j: int| 0 <= j < after.len() && j != i implies after[j] == before[j] by {}
                    assert forall|a: Seq<char>, b: MouseButton|
                        #[trigger] self.config.button_bound(a, b) <==> old(self).config.button_bound(a, b) || (a
                            == action@ && b == button) by {
                        if self.config.button_bound(a, b) {
                            let j = choose|j: int|
                                0 <= j < after.len() && (#[trigger] after[j]).0@ == a && after[j].1@.contains(b);
                            if j != i {
                                assert(after[j] == before[j]);
                            } else if b != button {
                                let t = choose|t: int| 0 <= t < after[j].1@.len() && after[j].1@[t] == b;
                                if t < before[j].1@.len() {
                                    assert(after[j].1@[t] == before[j].1@[t]);
                                    assert(before[j].1@.contains(b));
                                } else {
                                    assert(after[j].1@[t] == button);
                                }
                            }
                        }
                        if old(self).config.button_bound(a, b) {
                            let j = choose|j: int|
                                0 <= j < before.len() && (#[trigger] before[j]).0@ == a && before[j].1@.contains(b);
                            let t = choose|t: int| 0 <= t < before[j].1@.len() && before[j].1@[t] == b;
                            if j == i {
                                assert(after[j].1@[t] == b);
                            } else {
                                assert(after[j] == before[j]);
                            }
                        }
                        if a == action@ && b == button {
                            if before[i as int].1@.contains(button) {
                                let t = choose|t: int| 0 <= t < before[i as int].1@.len() && before[i as int].1@[t] == b;
                                assert(after[i as int].1@[t] == b);
                            } else {
                                assert(after[i as int].1@[before[i as int].1@.len() as int] == b);
                            }
                        }
                    }
                }
            },
            None => {
                let mut buttons: Vec<MouseButton> = Vec::new();
                buttons.push(button);
                self.config.mouse_bindings.push((name, buttons));
                proof {
                    let after = self.config.mouse_bindings@;
                    assert forall|a: Seq<char>, b: MouseButton|
                        #[trigger] self.config.button_bound(a, b) <==> old(self).config.button_bound(a, b) || (a
                            == action@ && b == button) by {
                        if self.config.button_bound(a, b) {
                            let j = choose|j: int|
                                0 <= j < after.len() && (#[trigger] after[j]).0@ == a && after[j].1@.contains(b);
                            if j < before.len() {
                                assert(after[j] == before[j]);
                            } else {
                                let t = choose|t: int| 0 <= t < after[j].1@.len() && after[j].1@[t] == b;
                            }
                        }
                        if old(self).config.button_bound(a, b) {
                            let j = choose|j: int|
                                0 <= j < before.len() && (#[trigger] before[j]).0@ == a && before[j].1@.contains(b);
                            assert(after[j] == before[j]);
                        }
                        if a == action@ && b == button {
                            assert(after[before.len() as int].1@[0] == b);
                        }
                    }
                }
            },
        }
        self
    }

    /// Makes key `key_code` repeat while held: after `delay_ms`, every
    /// `interval_ms` (replacing an earlier setting).
    pub fn set_key_repeat(&mut self, key_code: KeyCode, delay_ms: u64, interval_ms: u64) -> (r: &mut Self)
        requires
            old(self).wf(),
        ensures
            r.wf(),
            forall|k: KeyCode| #[trigger] r.config.repeat_of(k) == if k == key_code {
                Some(KeyRepeatConfig { delay_ms, interval_ms })
            } else {
                old(self).config.repeat_of(k)
            },
            r.config.key_bindings == old(self).config.key_bindings,
            r.config.mouse_bindings == old(self).config.mouse_bindings,
            *r == (ActionMapping { config: r.config, ..*old(self) }),
            *final(self) == *final(r),
    {
        let cfg = KeyRepeatConfig { delay_ms, interval_ms };
        let ghost before = self.config.key_repeat@;
        match repeat_index(&self.config.key_repeat, key_code) {
            Some(i) => {
                self.config.key_repeat.set(i, (key_code, cfg));
                proof {
                    let after = self.config.key_repeat@;
                    assert forall|k: KeyCode| #[trigger] self.config.repeat_of(k) == if k == key_code {
                        Some(cfg)
                    } else {
                        old(self).config.repeat_of(k)
                    } by {
                        if k == key_code {
                            assert(after[i as int].0 == k);
                            let t = choose|t: int| 0 <= t < after.len() && (#[trigger] after[t]).0 == k;
                            if t != i {
                                assert(after[t] == before[t]);
                            }
                        } else {
                            if exists|t: int| 0 <= t < before.len() && (#[trigger] before[t]).0 == k {
                                let t = choose|t: int| 0 <= t < before.len() && (#[trigger] before[t]).0 == k;
                                assert(after[t] == before[t]);
                                let u = choose|u: int| 0 <= u < after.len() && (#[trigger] after[u]).0 == k;
                                assert(after[u] == before[u]);
                            } else {
                                assert forall|t: int| 0 <= t < after.len() implies (#[trigger] after[t]).0 != k by {
                                    if t != i {
                                        assert(after[t] == before[t]);
                                    }
                                }
                            }
                        }
                    }
                }
            },
            None => {
                self.config.key_repeat.push((key_code, cfg));
                proof {
                    let after = self.config.key_repeat@;
                    assert forall|k: KeyCode| #[trigger] self.config.repeat_of(k) == if k == key_code {
                        Some(cfg)
                    } else {
                        old(self).config.repeat_of(k)
                    } by {
                        if k == key_code {
                            assert(after[before.len() as int].0 == k);
                            let t = choose|t: int| 0 <= t < after.len() && (#[trigger] after[t]).0 == k;
                            if t < before.len() {
                                assert(after[t] == before[t]);
                            }
                        } else {
                            if exists|t: int| 0 <= t < before.len() && (#[trigger] before[t]).0 == k {
                                let t = choose|t: int| 0 <= t < before.len() && (#[trigger] before[t]).0 == k;
                                assert(after[t] == before[t]);
                                let u = choose|u: int| 0 <= u < after.len() && (#[trigger] after[u]).0 == k;
                                if u < before.len() {
                                    assert(after[u] == before[u]);
                                }
                            } else {
                                assert forall|t: int| 0 <= t < after.len() implies (#[trigger] after[t]).0 != k by {
                                    if t < before.len() {
                                        assert(after[t] == before[t]);
                                    }
                                }
                            }
                        }
                    }
                }
            },
        }
        self
    }

    /// Whether `action` is active now.
    pub fn is_action_active(&self, action: &str) -> (r: bool)
        ensures
            r == self.active(action@),
    {
        position_of_name(&self.active_actions, &String::from_str(action)).is_some()
    }

    /// Whether `action` became active this frame.
    pub fn is_action_just_pressed(&self, action: &str) -> (r: bool)
        ensures
            r == (self.active(action@) && !self.was_active(action@)),
    {
        let name = String::from_str(action);
        position_of_name(&self.active_actions, &name).is_some() && position_of_name(
            &self.previous_actions,
            &name,
        ).is_none()
    }

    /// Whether `action` stopped this frame.
    pub fn is_action_just_released(&self, action: &str) -> (r: bool)
        ensures
            r == (!self.active(action@) && self.was_active(action@)),
    {
        let name = String::from_str(action);
        position_of_name(&self.active_actions, &name).is_none() && position_of_name(
            &self.previous_actions,
            &name,
        ).is_some()
    }

    /// Whether `action` has a full value: digital keys and buttons give an
    /// action its full value once it is active, and it keeps it.
    pub fn has_action_value(&self, action: &str) -> (r: bool)
        ensures
            r == self.valued(action@),
    {
        position_of_name(&self.valued_actions, &String::from_str(action)).is_some()
    }

    /// How long (in milliseconds, at time `now`) the active `action` has
    /// run since it became active; `None` when it is not active or never
    /// started. A clock reading before the start counts as zero.
    pub fn get_action_duration(&self, action: &str, now: u64) -> (r: Option<u64>)
        requires
            self.wf(),
        ensures
            r == match self.start_of(action@) {
                Some(start) => if self.active(action@) {
                    Some(if now >= start {
                        (now - start) as u64
                    } else {
                        0u64
                    })
                } else {
                    None
                },
                None => None,
            },
    {
        let name = String::from_str(action);
        match entry_of(&self.action_start_time, &name) {
            Some(i) => {
                proof {
                    lemma_time_of(self.action_start_time@, i as int);
                }
                if position_of_name(&self.active_actions, &name).is_some() {
                    let start = self.action_start_time[i].1;
                    if now >= start {
                        Some(now - start)
                    } else {
                        Some(0)
                    }
                } else {
                    None
                }
            },
            None => None,
        }
    }
}

/// The keys and mouse buttons held now and in the previous frame, when
/// each key was last pressed and last repeated, and the actions they
/// drive.
#[derive(Debug, Clone)]
pub struct InputState {
    /// Keys held now, each once.
    pub keys_pressed: Vec<KeyCode>,
    /// Keys held in the previous frame, each once.
    pub keys_previous: Vec<KeyCode>,
    /// When each key was last pressed down.
    pub key_last_press_time: HashMap<KeyCode, u64>,
    /// When each key last repeated (or was pressed down).
    pub key_last_repeat_time: HashMap<KeyCode, u64>,
    /// Each mouse button seen, and whether it is down.
    pub mouse_buttons: HashMap<MouseButton, bool>,
    /// The same, in the previous frame.
    pub mouse_buttons_previous: HashMap<MouseButton, bool>,
    pub action_mapping: ActionMapping,
}

/// Each key is listed once.
pub open spec fn keys_distinct(s: Seq<KeyCode>) -> bool {
    forall|i: int, j: int| 0 <= i < s.len() && 0 <= j < s.len() && i != j ==> s[i] != s[j]
}

/// Where key `k` is in `keys`.
fn key_index(keys: &Vec<KeyCode>, k: KeyCode) -> (r: Option<usize>)
    ensures
        r is None <==> !keys@.contains(k),
        r matches Some(i) ==> i < keys@.len() && keys@[i as int] == k,
{
    let mut i: usize = 0;
    while i < keys.len()
        invariant
            i <= keys@.len(),
            forall|j: int| 0 <= j < i ==> keys@[j] != k,
        decreases keys@.len() - i,
    {
        if keys[i] == k {
            return Some(i);
        }
        i = i + 1;
    }
    None
}

/// A copy of `keys`.
fn copy_keys(keys: &Vec<KeyCode>) -> (r: Vec<KeyCode>)
    ensures
        r@ == keys@,
{
    let mut r: Vec<KeyCode> = Vec::new();
    let mut i: usize = 0;
    while i < keys.len()
        invariant
            i <= keys@.len(),
            r@ == keys@.take(i as int),
        decreases keys@.len() - i,
    {
        r.push(keys[i]);
        proof {
            assert(keys@.take(i + 1) =~= keys@.take(i as int).push(keys@[i as int]));
        }
        i = i + 1;
    }
    proof {
        assert(keys@.take(i as int) =~= keys@);
    }
    r
}

/// Whether button `b` is down in `buttons`.
pub open spec fn down_in(buttons: Map<MouseButton, bool>, b: MouseButton) -> bool {
    buttons.contains_key(b) && buttons[b]
}

/// Whether button `b` is down.
fn is_down(buttons: &HashMap<MouseButton, bool>, b: MouseButton) -> (r: bool)
    ensures
        r == down_in(buttons@, b),
{
    match buttons.get(&b) {
        Some(v) => *v,
        None => false,
    }
}

impl InputState {
    /// Each key and each action is listed once.
    pub open spec fn wf(self) -> bool {
        &&& keys_distinct(self.keys_pressed@)
        &&& keys_distinct(self.keys_previous@)
        &&& self.action_mapping.wf()
    }

    pub open spec fn pressed(self, k: KeyCode) -> bool {
        self.keys_pressed@.contains(k)
    }

    pub open spec fn was_pressed(self, k: KeyCode) -> bool {
        self.keys_previous@.contains(k)
    }

    /// `after` holds the keys `self` holds, with key `k` held or not as
    /// `down` says.
    pub open spec fn keys_set(self, after: InputState, k: KeyCode, down: bool) -> bool {
        forall|j: KeyCode| #[trigger] after.pressed(j) == if j == k {
            down
        } else {
            self.pressed(j)
        }
    }

    /// Nothing held, nothing bound.
    pub fn new() -> (r: InputState)
        ensures
            r.wf(),
            r.keys_pressed@.len() == 0,
            r.keys_previous@.len() == 0,
            r.key_last_press_time@ == Map::<KeyCode, u64>::empty(),
            r.key_last_repeat_time@ == Map::<KeyCode, u64>::empty(),
            r.mouse_buttons@ == Map::<MouseButton, bool>::empty(),
            r.mouse_buttons_previous@ == Map::<MouseButton, bool>::empty(),
            r.action_mapping.config.key_bindings@.len() == 0,
            r.action_mapping.config.mouse_bindings@.len() == 0,
            r.action_mapping.config.key_repeat@.len() == 0,
            r.action_mapping.active_actions@.len() == 0,
            r.action_mapping.previous_actions@.len() == 0,
            r.action_mapping.valued_actions@.len() == 0,
    {
        InputState {
            keys_pressed: Vec::new(),
            keys_previous: Vec::new(),
            key_last_press_time: HashMap::new(),
            key_last_repeat_time: HashMap::new(),
            mouse_buttons: HashMap::new(),
            mouse_buttons_previous: HashMap::new(),
            action_mapping: ActionMapping::new(),
        }
    }

    /// Records key `key_code` as held or released at time `now`; a key
    /// that goes down notes `now` as its press and repeat time.
    pub fn update_key(&mut self, key_code: KeyCode, is_pressed: bool, now: u64)
        requires
            old(self).wf(),
        ensures
            final(self).wf(),
            old(self).keys_set(*final(self), key_code, is_pressed),
            is_pressed && !old(self).pressed(key_code) ==> final(self).key_last_press_time@
                == old(self).key_last_press_time@.insert(key_code, now) && final(self).key_last_repeat_time@
                == old(self).key_last_repeat_time@.insert(key_code, now),
            !(is_pressed && !old(self).pressed(key_code)) ==> final(self).key_last_press_time@ == old(
                self,
            ).key_last_press_time@ && final(self).key_last_repeat_time@ == old(self).key_last_repeat_time@,
            final(self).keys_previous == old(self).keys_previous,
            final(self).mouse_buttons == old(self).mouse_buttons,
            final(self).mouse_buttons_previous == old(self).mouse_buttons_previous,
            final(self).action_mapping == old(self).action_mapping,
    {
        let held = has_key(&self.keys_pressed, key_code);
        if is_pressed {
            if !held {
                self.key_last_press_time.insert(key_code, now);
                self.key_last_repeat_time.insert(key_code, now);
                let ghost before = self.keys_pressed@;
                self.keys_pressed.push(key_code);
                proof {
                    assert forall|k: KeyCode| #[trigger] self.pressed(k) == if k == key_code {
                        true
                    } else {
                        old(self).pressed(k)
                    } by {
                        crate::game::minesweeper::lemma_push_contains(before, key_code, k);
                    }
                }
            }
        } else if held {
            let ghost before = self.keys_pressed@;
            match key_index(&self.keys_pressed, key_code) {
                Some(i) => {
                    self.keys_pressed.remove(i);
                    proof {
                        assert forall|k: KeyCode| #[trigger] self.pressed(k) == if k == key_code {
                            false
                        } else {
                            old(self).pressed(k)
                        } by {
                            if self.pressed(k) {
                                let t = choose|t: int| 0 <= t < self.keys_pressed@.len() && self.keys_pressed@[t] == k;
                                if t < i {
                                    assert(self.keys_pressed@[t] == before[t]);
                                    assert(before[t] != before[i as int]);
                                } else {
                                    assert(self.keys_pressed@[t] == before[t + 1]);
                                    assert(before[t + 1] != before[i as int]);
                                }
                            }
                            if k != key_code && old(self).pressed(k) {
                                let t = choose|t: int| 0 <= t < before.len() && before[t] == k;
                                if t < i {
                                    assert(self.keys_pressed@[t] == before[t]);
                                } else {
                                    assert(t != i);
                                    assert(self.keys_pressed@[t - 1] == before[t]);
                                }
                            }
                        }
                    }
                },
                None => {},
            }
        }
    }

    /// Records mouse button `button` as down or up.
    pub fn update_mouse_button(&mut self, button: MouseButton, is_pressed: bool)
        ensures
            final(self).mouse_buttons@ == old(self).mouse_buttons@.insert(button, is_pressed),
            *final(self) == (InputState { mouse_buttons: final(self).mouse_buttons, ..*old(self) }),
    {
        self.mouse_buttons.insert(button, is_pressed);
    }

    /// Whether key `key_code` is held.
    pub fn is_key_pressed(&self, key_code: KeyCode) -> (r: bool)
        ensures
            r == self.pressed(key_code),
    {
        has_key(&self.keys_pressed, key_code)
    }

    /// Whether key `key_code` went down this frame.
    pub fn is_key_just_pressed(&self, key_code: KeyCode) -> (r: bool)
        ensures
            r == (self.pressed(key_code) && !self.was_pressed(key_code)),
    {
        has_key(&self.keys_pressed, key_code) && !has_key(&self.keys_previous, key_code)
    }

    /// Whether key `key_code` went up this frame.
    pub fn is_key_just_released(&self, key_code: KeyCode) -> (r: bool)
        ensures
            r == (!self.pressed(key_code) && self.was_pressed(key_code)),
    {
        !has_key(&self.keys_pressed, key_code) && has_key(&self.keys_previous, key_code)
    }

    /// Whether mouse button `button` is down.
    pub fn is_mouse_button_pressed(&self, button: MouseButton) -> (r: bool)
        ensures
            r == down_in(self.mouse_buttons@, button),
    {
        is_down(&self.mouse_buttons, button)
    }

    /// Whether mouse button `button` went down this frame.
    pub fn is_mouse_button_just_pressed(&self, button: MouseButton) -> (r: bool)
        ensures
            r == (down_in(self.mouse_buttons@, button) && !down_in(self.mouse_buttons_previous@, button)),
    {
        is_down(&self.mouse_buttons, button) && !is_down(&self.mouse_buttons_previous, button)
    }

    /// Whether mouse button `button` went up this frame.
    pub fn is_mouse_button_just_released(&self, button: MouseButton) -> (r: bool)
        ensures
            r == (!down_in(self.mouse_buttons@, button) && down_in(self.mouse_buttons_previous@, button)),
    {
        !is_down(&self.mouse_buttons, button) && is_down(&self.mouse_buttons_previous, button)
    }
}

/// Whether one of `codes` is held.
fn any_key_held(held: &Vec<KeyCode>, codes: &Vec<KeyCode>) -> (r: bool)
    ensures
        r == exists|k: KeyCode| codes@.contains(k) && held@.contains(k),
{
    let mut i: usize = 0;
    while i < codes.len()
        invariant
            i <= codes@.len(),
            forall|j: int| 0 <= j < i ==> !held@.contains(#[trigger] codes@[j]),
        decreases codes@.len() - i,
    {
        if has_key(held, codes[i]) {
            assert(codes@.contains(codes@[i as int]));
            return true;
        }
        i = i + 1;
    }
    proof {
        assert forall|k: KeyCode| !(codes@.contains(k) && held@.contains(k)) by {
            if codes@.contains(k) {
                let j = choose|j: int| 0 <= j < codes@.len() && codes@[j] == k;
                assert(!held@.contains(codes@[j]));
            }
        }
    }
    false
}

/// Whether one of `buttons` is down.
fn any_button_down(down: &HashMap<MouseButton, bool>, buttons: &Vec<MouseButton>) -> (r: bool)
    ensures
        r == exists|b: MouseButton| buttons@.contains(b) && down_in(down@, b),
{
    let mut i: usize = 0;
    while i < buttons.len()
        invariant
            i <= buttons@.len(),
            forall|j: int| 0 <= j < i ==> !down_in(down@, #[trigger] buttons@[j]),
        decreases buttons@.len() - i,
    {
        if is_down(down, buttons[i]) {
            assert(buttons@.contains(buttons@[i as int]));
            return true;
        }
        i = i + 1;
    }
    proof {
        assert forall|b: MouseButton| !(buttons@.contains(b) && down_in(down@, b)) by {
            if buttons@.contains(b) {
                let j = choose|j: int| 0 <= j < buttons@.len() && buttons@[j] == b;
                assert(!down_in(down@, buttons@[j]));
            }
        }
    }
    false
}

impl InputState {
    /// A held key triggers `a`.
    pub open spec fn keys_trigger(self, a: Seq<char>) -> bool {
        exists|k: KeyCode| #[trigger] self.action_mapping.config.key_bound(a, k) && self.pressed(k)
    }

    /// A mouse button that is down triggers `a`.
    pub open spec fn buttons_trigger(self, a: Seq<char>) -> bool {
        exists|b: MouseButton| #[trigger] self.action_mapping.config.button_bound(a, b) && down_in(self.mouse_buttons@, b)
    }

    /// Key `k` repeats at time `now`: it is held, set to repeat, and both
    /// its delay since the press and its interval since the last repeat
    /// have passed.
    pub open spec fn repeats_at(self, k: KeyCode, now: u64) -> bool {
        &&& self.pressed(k)
        &&& self.action_mapping.config.repeat_of(k) is Some
        &&& self.key_last_press_time@.contains_key(k)
        &&& now >= self.key_last_press_time@[k]
        &&& now - self.key_last_press_time@[k] >= self.action_mapping.config.repeat_of(k)->0.delay_ms
        &&& self.key_last_repeat_time@.contains_key(k)
        &&& now >= self.key_last_repeat_time@[k]
        &&& now - self.key_last_repeat_time@[k] >= self.action_mapping.config.repeat_of(k)->0.interval_ms
    }

    /// A key that repeats at `now` triggers `a`.
    pub open spec fn repeat_triggers(self, a: Seq<char>, now: u64) -> bool {
        exists|k: KeyCode| #[trigger] self.action_mapping.config.key_bound(a, k) && self.repeats_at(k, now)
    }

    /// Key `k` triggers some action.
    pub open spec fn key_in_use(self, k: KeyCode) -> bool {
        exists|a: Seq<char>| #[trigger] self.action_mapping.config.key_bound(a, k)
    }

    /// What a frame's action update at `now` does: the active actions
    /// become the previous ones; an action is active when a held key or a
    /// down button triggers it, or a key bound to it repeats; an action a
    /// key or button triggers gets its full value, and starts now unless
    /// it was already active (then it keeps its start time); a
    /// repeating key bound to some action notes `now` as its repeat time.
    pub open spec fn actions_updated(self, after: Self, now: u64) -> bool {
        &&& after == (InputState {
            action_mapping: after.action_mapping,
            key_last_repeat_time: after.key_last_repeat_time,
            ..self
        })
        &&& after.action_mapping.config == self.action_mapping.config
        &&& after.action_mapping.wf()
        &&& forall|a: Seq<char>| #[trigger] after.action_mapping.was_active(a) == self.action_mapping.active(a)
        &&& forall|a: Seq<char>|
            #[trigger] after.action_mapping.active(a) == (self.keys_trigger(a) || self.buttons_trigger(a)
                || self.repeat_triggers(a, now))
        &&& forall|a: Seq<char>|
            #[trigger] after.action_mapping.start_of(a) == if (self.keys_trigger(a) || self.buttons_trigger(a))
                && !self.action_mapping.active(a) {
                Some(now)
            } else {
                self.action_mapping.start_of(a)
            }
        &&& forall|a: Seq<char>|
            #[trigger] after.action_mapping.valued(a) == (self.action_mapping.valued(a) || self.keys_trigger(a)
                || self.buttons_trigger(a))
        &&& after.key_last_repeat_time@.dom() == self.key_last_repeat_time@.dom()
        &&& forall|k: KeyCode|
            self.key_last_repeat_time@.contains_key(k) ==> #[trigger] after.key_last_repeat_time@[k] == if self.repeats_at(
                k,
                now,
            ) && self.key_in_use(k) {
                now
            } else {
                self.key_last_repeat_time@[k]
            }
    }

    /// Entry `j` of the key bindings has a held key.
    pub open spec fn binding_held(self, j: int) -> bool {
        exists|k: KeyCode| self.action_mapping.config.key_bindings@[j].1@.contains(k) && #[trigger] self.pressed(k)
    }

    /// One of the first `n` key bindings of `a` has a held key.
    pub open spec fn held_upto(self, a: Seq<char>, n: int) -> bool {
        exists|j: int|
            0 <= j < n && (#[trigger] self.action_mapping.config.key_bindings@[j]).0@ == a && self.binding_held(j)
    }

    /// Entry `j` of the mouse bindings has a button down.
    pub open spec fn binding_down(self, j: int) -> bool {
        exists|b: MouseButton|
            self.action_mapping.config.mouse_bindings@[j].1@.contains(b) && #[trigger] down_in(self.mouse_buttons@, b)
    }

    /// One of the first `n` mouse bindings of `a` has a button down.
    pub open spec fn down_upto(self, a: Seq<char>, n: int) -> bool {
        exists|j: int|
            0 <= j < n && (#[trigger] self.action_mapping.config.mouse_bindings@[j]).0@ == a && self.binding_down(j)
    }

    /// One of the first `n` repeating keys repeats at `now` and triggers `a`.
    pub open spec fn repeat_upto(self, a: Seq<char>, n: int, now: u64) -> bool {
        exists|q: int|
            0 <= q < n && self.repeats_at((#[trigger] self.action_mapping.config.key_repeat@[q]).0, now)
                && self.action_mapping.config.key_bound(a, self.action_mapping.config.key_repeat@[q].0)
    }
}

/// All key bindings together trigger what the held keys trigger.
pub proof fn lemma_held_all(s: InputState, a: Seq<char>)
    ensures
        s.held_upto(a, s.action_mapping.config.key_bindings@.len() as int) == s.keys_trigger(a),
{
    let kb = s.action_mapping.config.key_bindings@;
    if s.keys_trigger(a) {
        let k = choose|k: KeyCode| #[trigger] s.action_mapping.config.key_bound(a, k) && s.pressed(k);
        let j = choose|j: int| 0 <= j < kb.len() && (#[trigger] kb[j]).0@ == a && kb[j].1@.contains(k);
        assert(s.binding_held(j));
    }
    if s.held_upto(a, kb.len() as int) {
        let j = choose|j: int| 0 <= j < kb.len() && (#[trigger] kb[j]).0@ == a && s.binding_held(j);
        let k = choose|k: KeyCode| kb[j].1@.contains(k) && #[trigger] s.pressed(k);
        assert(s.action_mapping.config.key_bound(a, k));
    }
}

/// All mouse bindings together trigger what the down buttons trigger.
pub proof fn lemma_down_all(s: InputState, a: Seq<char>)
    ensures
        s.down_upto(a, s.action_mapping.config.mouse_bindings@.len() as int) == s.buttons_trigger(a),
{
    let mb = s.action_mapping.config.mouse_bindings@;
    if s.buttons_trigger(a) {
        let b = choose|b: MouseButton| #[trigger] s.action_mapping.config.button_bound(a, b) && down_in(s.mouse_buttons@, b);
        let j = choose|j: int| 0 <= j < mb.len() && (#[trigger] mb[j]).0@ == a && mb[j].1@.contains(b);
        assert(s.binding_down(j));
    }
    if s.down_upto(a, mb.len() as int) {
        let j = choose|j: int| 0 <= j < mb.len() && (#[trigger] mb[j]).0@ == a && s.binding_down(j);
        let b = choose|b: MouseButton| mb[j].1@.contains(b) && #[trigger] down_in(s.mouse_buttons@, b);
        assert(s.action_mapping.config.button_bound(a, b));
    }
}

/// All repeating keys together trigger what the repeating keys trigger.
pub proof fn lemma_repeat_all(s: InputState, a: Seq<char>, now: u64)
    ensures
        s.repeat_upto(a, s.action_mapping.config.key_repeat@.len() as int, now) == s.repeat_triggers(a, now),
{
    let kr = s.action_mapping.config.key_repeat@;
    if s.repeat_triggers(a, now) {
        let k = choose|k: KeyCode| #[trigger] s.action_mapping.config.key_bound(a, k) && s.repeats_at(k, now);
        let q = choose|q: int| 0 <= q < kr.len() && (#[trigger] kr[q]).0 == k;
        assert(kr[q].0 == k);
    }
}

impl InputState {
    /// Turns on the actions whose bound keys are held.
    fn activate_from_keys(&mut self, now: u64)
        requires
            old(self).action_mapping.wf(),
        ensures
            final(self).action_mapping.wf(),
            *final(self) == (InputState { action_mapping: final(self).action_mapping, ..*old(self) }),
            final(self).action_mapping.config == old(self).action_mapping.config,
            final(self).action_mapping.previous_actions == old(self).action_mapping.previous_actions,
            forall|a: Seq<char>|
                #[trigger] final(self).action_mapping.active(a) == (old(self).action_mapping.active(a) || old(
                    self,
                ).keys_trigger(a)),
            forall|a: Seq<char>|
                #[trigger] final(self).action_mapping.start_of(a) == if old(self).keys_trigger(a) && !old(
                    self,
                ).action_mapping.was_active(a) {
                    Some(now)
                } else {
                    old(self).action_mapping.start_of(a)
                },
            forall|a: Seq<char>|
                #[trigger] final(self).action_mapping.valued(a) == (old(self).action_mapping.valued(a) || old(
                    self,
                ).keys_trigger(a)),
    {
        let ghost s0 = *self;
        let mut i: usize = 0;
        while i < self.action_mapping.config.key_bindings.len()
            invariant
                self.action_mapping.wf(),
                *self == (InputState { action_mapping: self.action_mapping, ..s0 }),
                self.action_mapping.config == s0.action_mapping.config,
                self.action_mapping.previous_actions == s0.action_mapping.previous_actions,
                i <= s0.action_mapping.config.key_bindings@.len(),
                forall|a: Seq<char>|
                    #[trigger] self.action_mapping.active(a) == (s0.action_mapping.active(a) || s0.held_upto(a, i as int)),
                forall|a: Seq<char>|
                    #[trigger] self.action_mapping.start_of(a) == if s0.held_upto(a, i as int) && !s0.action_mapping.was_active(a) {
                        Some(now)
                    } else {
                        s0.action_mapping.start_of(a)
                    },
                forall|a: Seq<char>|
                    #[trigger] self.action_mapping.valued(a) == (s0.action_mapping.valued(a) || s0.held_upto(a, i as int)),
            decreases s0.action_mapping.config.key_bindings@.len() - i,
        {
            let held = any_key_held(&self.keys_pressed, &self.action_mapping.config.key_bindings[i].1);
            let ghost kb = s0.action_mapping.config.key_bindings@;
            proof {
                assert(held == s0.binding_held(i as int)) by {
                    if held {
                        let k = choose|k: KeyCode| kb[i as int].1@.contains(k) && self.keys_pressed@.contains(k);
                        assert(s0.pressed(k));
                    }
                }
                assert forall|a: Seq<char>| #[trigger] s0.held_upto(a, i + 1) == (s0.held_upto(a, i as int) || (a
                    == kb[i as int].0@ && held)) by {
                    if s0.held_upto(a, i + 1) && !s0.held_upto(a, i as int) {
                        let j = choose|j: int| 0 <= j < i + 1 && (#[trigger] kb[j]).0@ == a && s0.binding_held(j);
                        assert(j == i);
                    }
                    if a == kb[i as int].0@ && held {
                        assert(kb[i as int].0@ == a);
                    }
                }
            }
            let ghost before = *self;
            if held {
                let name = self.action_mapping.config.key_bindings[i].0.clone();
                if position_of_name(&self.action_mapping.previous_actions, &name).is_none() {
                    put_time(&mut self.action_mapping.action_start_time, name.clone(), now);
                }
                add_name(&mut self.action_mapping.active_actions, name.clone());
                add_name(&mut self.action_mapping.valued_actions, name);
                proof {
                    assert forall|a: Seq<char>| #[trigger] self.action_mapping.active(a) == (
                    s0.action_mapping.active(a) || s0.held_upto(a, i + 1)) by {
                        assert(before.action_mapping.active(a) == (s0.action_mapping.active(a) || s0.held_upto(a, i as int)));
                        assert(s0.held_upto(a, i + 1) == (s0.held_upto(a, i as int) || (a == name@ && held)));
                    }
                    assert forall|a: Seq<char>| #[trigger] self.action_mapping.start_of(a) == if s0.held_upto(a, i + 1) && !s0.action_mapping.was_active(a) {
                        Some(now)
                    } else {
                        s0.action_mapping.start_of(a)
                    } by {
                        assert(before.action_mapping.start_of(a) == if s0.held_upto(a, i as int) && !s0.action_mapping.was_active(a) {
                            Some(now)
                        } else {
                            s0.action_mapping.start_of(a)
                        });
                        assert(s0.held_upto(a, i + 1) == (s0.held_upto(a, i as int) || (a == name@ && held)));
                        if a == name@ {
                            assert(before.action_mapping.active(a) == (s0.action_mapping.active(a) || s0.held_upto(a, i as int)));
                        }
                    }
                    assert forall|a: Seq<char>| #[trigger] self.action_mapping.valued(a) == (
                    s0.action_mapping.valued(a) || s0.held_upto(a, i + 1)) by {
                        assert(before.action_mapping.valued(a) == (s0.action_mapping.valued(a) || s0.held_upto(a, i as int)));
                        assert(s0.held_upto(a, i + 1) == (s0.held_upto(a, i as int) || (a == name@ && held)));
                    }
                }
            } else {
                proof {
                    assert forall|a: Seq<char>| #[trigger] self.action_mapping.active(a) == (
                    s0.action_mapping.active(a) || s0.held_upto(a, i + 1)) by {
                        assert(s0.held_upto(a, i + 1) == (s0.held_upto(a, i as int) || (a == before.action_mapping.config.key_bindings@[i as int].0@ && held)));
                    }
                    assert forall|a: Seq<char>| #[trigger] self.action_mapping.start_of(a) == if s0.held_upto(a, i + 1) && !s0.action_mapping.was_active(a) {
                        Some(now)
                    } else {
                        s0.action_mapping.start_of(a)
                    } by {
                        assert(s0.held_upto(a, i + 1) == (s0.held_upto(a, i as int) || (a == before.action_mapping.config.key_bindings@[i as int].0@ && held)));
                    }
                    assert forall|a: Seq<char>| #[trigger] self.action_mapping.valued(a) == (
                    s0.action_mapping.valued(a) || s0.held_upto(a, i + 1)) by {
                        assert(s0.held_upto(a, i + 1) == (s0.held_upto(a, i as int) || (a == before.action_mapping.config.key_bindings@[i as int].0@ && held)));
                    }
                }
            }
            i = i + 1;
        }
        proof {
            assert forall|a: Seq<char>| true implies s0.held_upto(a, s0.action_mapping.config.key_bindings@.len() as int)
                == s0.keys_trigger(a) by {
                lemma_held_all(s0, a);
            }
        }
    }

    /// Turns on the actions whose bound mouse buttons are down.
    fn activate_from_buttons(&mut self, now: u64)
        requires
            old(self).action_mapping.wf(),
        ensures
            final(self).action_mapping.wf(),
            *final(self) == (InputState { action_mapping: final(self).action_mapping, ..*old(self) }),
            final(self).action_mapping.config == old(self).action_mapping.config,
            final(self).action_mapping.previous_actions == old(self).action_mapping.previous_actions,
            forall|a: Seq<char>|
                #[trigger] final(self).action_mapping.active(a) == (old(self).action_mapping.active(a) || old(
                    self,
                ).buttons_trigger(a)),
            forall|a: Seq<char>|
                #[trigger] final(self).action_mapping.start_of(a) == if old(self).buttons_trigger(a) && !old(
                    self,
                ).action_mapping.was_active(a) {
                    Some(now)
                } else {
                    old(self).action_mapping.start_of(a)
                },
            forall|a: Seq<char>|
                #[trigger] final(self).action_mapping.valued(a) == (old(self).action_mapping.valued(a) || old(
                    self,
                ).buttons_trigger(a)),
    {
        let ghost s0 = *self;
        let mut i: usize = 0;
        while i < self.action_mapping.config.mouse_bindings.len()
            invariant
                self.action_mapping.wf(),
                *self == (InputState { action_mapping: self.action_mapping, ..s0 }),
                self.action_mapping.config == s0.action_mapping.config,
                self.action_mapping.previous_actions == s0.action_mapping.previous_actions,
                i <= s0.action_mapping.config.mouse_bindings@.len(),
                forall|a: Seq<char>|
                    #[trigger] self.action_mapping.active(a) == (s0.action_mapping.active(a) || s0.down_upto(a, i as int)),
                forall|a: Seq<char>|
                    #[trigger] self.action_mapping.start_of(a) == if s0.down_upto(a, i as int) && !s0.action_mapping.was_active(a) {
                        Some(now)
                    } else {
                        s0.action_mapping.start_of(a)
                    },
                forall|a: Seq<char>|
                    #[trigger] self.action_mapping.valued(a) == (s0.action_mapping.valued(a) || s0.down_upto(a, i as int)),
            decreases s0.action_mapping.config.mouse_bindings@.len() - i,
        {
            let down = any_button_down(&self.mouse_buttons, &self.action_mapping.config.mouse_bindings[i].1);
            let ghost mb = s0.action_mapping.config.mouse_bindings@;
            proof {
                assert(down == s0.binding_down(i as int)) by {
                    if down {
                        let b = choose|b: MouseButton| mb[i as int].1@.contains(b) && down_in(self.mouse_buttons@, b);
                        assert(down_in(s0.mouse_buttons@, b));
                    }
                }
                assert forall|a: Seq<char>| #[trigger] s0.down_upto(a, i + 1) == (s0.down_upto(a, i as int) || (a
                    == mb[i as int].0@ && down)) by {
                    if s0.down_upto(a, i + 1) && !s0.down_upto(a, i as int) {
                        let j = choose|j: int| 0 <= j < i + 1 && (#[trigger] mb[j]).0@ == a && s0.binding_down(j);
                        assert(j == i);
                    }
                    if a == mb[i as int].0@ && down {
                        assert(mb[i as int].0@ == a);
                    }
                }
            }
            let ghost before = *self;
            if down {
                let name = self.action_mapping.config.mouse_bindings[i].0.clone();
                if position_of_name(&self.action_mapping.previous_actions, &name).is_none() {
                    put_time(&mut self.action_mapping.action_start_time, name.clone(), now);
                }
                add_name(&mut self.action_mapping.active_actions, name.clone());
                add_name(&mut self.action_mapping.valued_actions, name);
                proof {
                    assert forall|a: Seq<char>| #[trigger] self.action_mapping.active(a) == (
                    s0.action_mapping.active(a) || s0.down_upto(a, i + 1)) by {
                        assert(before.action_mapping.active(a) == (s0.action_mapping.active(a) || s0.down_upto(a, i as int)));
                        assert(s0.down_upto(a, i + 1) == (s0.down_upto(a, i as int) || (a == name@ && down)));
                    }
                    assert forall|a: Seq<char>| #[trigger] self.action_mapping.start_of(a) == if s0.down_upto(a, i + 1) && !s0.action_mapping.was_active(a) {
                        Some(now)
                    } else {
                        s0.action_mapping.start_of(a)
                    } by {
                        assert(before.action_mapping.start_of(a) == if s0.down_upto(a, i as int) && !s0.action_mapping.was_active(a) {
                            Some(now)
                        } else {
                            s0.action_mapping.start_of(a)
                        });
                        assert(s0.down_upto(a, i + 1) == (s0.down_upto(a, i as int) || (a == name@ && down)));
                        if a == name@ {
                            assert(before.action_mapping.active(a) == (s0.action_mapping.active(a) || s0.down_upto(a, i as int)));
                        }
                    }
                    assert forall|a: Seq<char>| #[trigger] self.action_mapping.valued(a) == (
                    s0.action_mapping.valued(a) || s0.down_upto(a, i + 1)) by {
                        assert(before.action_mapping.valued(a) == (s0.action_mapping.valued(a) || s0.down_upto(a, i as int)));
                        assert(s0.down_upto(a, i + 1) == (s0.down_upto(a, i as int) || (a == name@ && down)));
                    }
                }
            } else {
                proof {
                    assert forall|a: Seq<char>| #[trigger] self.action_mapping.active(a) == (
                    s0.action_mapping.active(a) || s0.down_upto(a, i + 1)) by {
                        assert(s0.down_upto(a, i + 1) == (s0.down_upto(a, i as int) || (a == before.action_mapping.config.mouse_bindings@[i as int].0@ && down)));
                    }
                    assert forall|a: Seq<char>| #[trigger] self.action_mapping.start_of(a) == if s0.down_upto(a, i + 1) && !s0.action_mapping.was_active(a) {
                        Some(now)
                    } else {
                        s0.action_mapping.start_of(a)
                    } by {
                        assert(s0.down_upto(a, i + 1) == (s0.down_upto(a, i as int) || (a == before.action_mapping.config.mouse_bindings@[i as int].0@ && down)));
                    }
                    assert forall|a: Seq<char>| #[trigger] self.action_mapping.valued(a) == (
                    s0.action_mapping.valued(a) || s0.down_upto(a, i + 1)) by {
                        assert(s0.down_upto(a, i + 1) == (s0.down_upto(a, i as int) || (a == before.action_mapping.config.mouse_bindings@[i as int].0@ && down)));
                    }
                }
            }
            i = i + 1;
        }
        proof {
            assert forall|a: Seq<char>| true implies s0.down_upto(a, s0.action_mapping.config.mouse_bindings@.len() as int)
                == s0.buttons_trigger(a) by {
                lemma_down_all(s0, a);
            }
        }
    }
}

impl InputState {
    /// Turns on every action that key `k` triggers, noting `now` as its
    /// repeat time when it triggers any.
    fn fire_repeat(&mut self, k: KeyCode, now: u64)
        requires
            old(self).action_mapping.wf(),
        ensures
            final(self).action_mapping.wf(),
            *final(self) == (InputState {
                action_mapping: final(self).action_mapping,
                key_last_repeat_time: final(self).key_last_repeat_time,
                ..*old(self)
            }),
            final(self).action_mapping == (ActionMapping {
                active_actions: final(self).action_mapping.active_actions,
                ..old(self).action_mapping
            }),
            forall|a: Seq<char>|
                #[trigger] final(self).action_mapping.active(a) == (old(self).action_mapping.active(a)
                    || old(self).action_mapping.config.key_bound(a, k)),
            final(self).key_last_repeat_time@ == if old(self).key_in_use(k) {
                old(self).key_last_repeat_time@.insert(k, now)
            } else {
                old(self).key_last_repeat_time@
            },
    {
        let ghost s0 = *self;
        let ghost kb = s0.action_mapping.config.key_bindings@;
        let mut t: usize = 0;
        while t < self.action_mapping.config.key_bindings.len()
            invariant
                self.action_mapping.wf(),
                *self == (InputState {
                    action_mapping: self.action_mapping,
                    key_last_repeat_time: self.key_last_repeat_time,
                    ..s0
                }),
                self.action_mapping == (ActionMapping {
                    active_actions: self.action_mapping.active_actions,
                    ..s0.action_mapping
                }),
                kb == self.action_mapping.config.key_bindings@,
                t <= kb.len(),
                forall|a: Seq<char>|
                    #[trigger] self.action_mapping.active(a) == (s0.action_mapping.active(a) || exists|u: int|
                        0 <= u < t && (#[trigger] kb[u]).0@ == a && kb[u].1@.contains(k)),
                self.key_last_repeat_time@ == if exists|u: int| 0 <= u < t && (#[trigger] kb[u]).1@.contains(k) {
                    s0.key_last_repeat_time@.insert(k, now)
                } else {
                    s0.key_last_repeat_time@
                },
            decreases kb.len() - t,
        {
            let ghost before = *self;
            if has_key(&self.action_mapping.config.key_bindings[t].1, k) {
                let name = self.action_mapping.config.key_bindings[t].0.clone();
                add_name(&mut self.action_mapping.active_actions, name);
                self.key_last_repeat_time.insert(k, now);
                proof {
                    assert(kb[t as int].1@.contains(k));
                    assert forall|a: Seq<char>| #[trigger] self.action_mapping.active(a) == (s0.action_mapping.active(a)
                        || exists|u: int| 0 <= u < t + 1 && (#[trigger] kb[u]).0@ == a && kb[u].1@.contains(k)) by {
                        assert(before.action_mapping.active(a) == (s0.action_mapping.active(a) || exists|u: int|
                            0 <= u < t && (#[trigger] kb[u]).0@ == a && kb[u].1@.contains(k)));
                        if a == kb[t as int].0@ {
                            assert(kb[t as int].0@ == a);
                        }
                        if exists|u: int| 0 <= u < t + 1 && (#[trigger] kb[u]).0@ == a && kb[u].1@.contains(k) {
                            let u = choose|u: int| 0 <= u < t + 1 && (#[trigger] kb[u]).0@ == a && kb[u].1@.contains(k);
                            if u < t {
                                assert(kb[u].0@ == a);
                            }
                        }
                    }
                    if exists|u: int| 0 <= u < t && (#[trigger] kb[u]).1@.contains(k) {
                        assert(s0.key_last_repeat_time@.insert(k, now).insert(k, now) =~= s0.key_last_repeat_time@.insert(k, now));
                    }
                    assert(kb[t as int].1@.contains(k));
                    assert(self.key_last_repeat_time@ =~= s0.key_last_repeat_time@.insert(k, now));
                }
            } else {
                proof {
                    assert forall|a: Seq<char>| #[trigger] self.action_mapping.active(a) == (s0.action_mapping.active(a)
                        || exists|u: int| 0 <= u < t + 1 && (#[trigger] kb[u]).0@ == a && kb[u].1@.contains(k)) by {
                        assert(before.action_mapping.active(a) == (s0.action_mapping.active(a) || exists|u: int|
                            0 <= u < t && (#[trigger] kb[u]).0@ == a && kb[u].1@.contains(k)));
                        if exists|u: int| 0 <= u < t + 1 && (#[trigger] kb[u]).0@ == a && kb[u].1@.contains(k) {
                            let u = choose|u: int| 0 <= u < t + 1 && (#[trigger] kb[u]).0@ == a && kb[u].1@.contains(k);
                            assert(u < t);
                        }
                    }
                    if exists|u: int| 0 <= u < t + 1 && (#[trigger] kb[u]).1@.contains(k) {
                        let u = choose|u: int| 0 <= u < t + 1 && (#[trigger] kb[u]).1@.contains(k);
                        assert(u < t);
                    }
                }
            }
            t = t + 1;
        }
        proof {
            assert forall|a: Seq<char>| (exists|u: int| 0 <= u < kb.len() && (#[trigger] kb[u]).0@ == a && kb[u].1@.contains(k))
                == s0.action_mapping.config.key_bound(a, k) by {}
            if s0.key_in_use(k) {
                let a = choose|a: Seq<char>| #[trigger] s0.action_mapping.config.key_bound(a, k);
                let u = choose|u: int| 0 <= u < kb.len() && (#[trigger] kb[u]).0@ == a && kb[u].1@.contains(k);
                assert(kb[u].1@.contains(k));
            }
            if exists|u: int| 0 <= u < kb.len() && (#[trigger] kb[u]).1@.contains(k) {
                let u = choose|u: int| 0 <= u < kb.len() && (#[trigger] kb[u]).1@.contains(k);
                assert(s0.action_mapping.config.key_bound(kb[u].0@, k));
            }
        }
    }
}

/// With each repeating key listed once, the entry of a listed key is its
/// repeat timing.
pub proof fn lemma_repeat_of(c: KeyConfig, q: int)
    requires
        codes_distinct(c.key_repeat@),
        0 <= q < c.key_repeat@.len(),
    ensures
        c.repeat_of(c.key_repeat@[q].0) == Some(c.key_repeat@[q].1),
{
    let k = c.key_repeat@[q].0;
    let i = choose|i: int| 0 <= i < c.key_repeat@.len() && (#[trigger] c.key_repeat@[i]).0 == k;
    assert(c.key_repeat@[i].0 == c.key_repeat@[q].0);
}

impl InputState {
    /// Fires the keys that repeat at `now`.
    fn apply_repeats(&mut self, now: u64)
        requires
            old(self).action_mapping.wf(),
        ensures
            final(self).action_mapping.wf(),
            *final(self) == (InputState {
                action_mapping: final(self).action_mapping,
                key_last_repeat_time: final(self).key_last_repeat_time,
                ..*old(self)
            }),
            final(self).action_mapping == (ActionMapping {
                active_actions: final(self).action_mapping.active_actions,
                ..old(self).action_mapping
            }),
            forall|a: Seq<char>|
                #[trigger] final(self).action_mapping.active(a) == (old(self).action_mapping.active(a) || old(
                    self,
                ).repeat_triggers(a, now)),
            final(self).key_last_repeat_time@.dom() == old(self).key_last_repeat_time@.dom(),
            forall|k: KeyCode|
                old(self).key_last_repeat_time@.contains_key(k) ==> #[trigger] final(self).key_last_repeat_time@[k]
                    == if old(self).repeats_at(k, now) && old(self).key_in_use(k) {
                    now
                } else {
                    old(self).key_last_repeat_time@[k]
                },
    {
        let ghost s0 = *self;
        let ghost kr = s0.action_mapping.config.key_repeat@;
        let mut r: usize = 0;
        while r < self.action_mapping.config.key_repeat.len()
            invariant
                self.action_mapping.wf(),
                *self == (InputState {
                    action_mapping: self.action_mapping,
                    key_last_repeat_time: self.key_last_repeat_time,
                    ..s0
                }),
                self.action_mapping == (ActionMapping {
                    active_actions: self.action_mapping.active_actions,
                    ..s0.action_mapping
                }),
                s0.action_mapping.wf(),
                kr == self.action_mapping.config.key_repeat@,
                r <= kr.len(),
                forall|a: Seq<char>|
                    #[trigger] self.action_mapping.active(a) == (s0.action_mapping.active(a) || s0.repeat_upto(a, r as int, now)),
                self.key_last_repeat_time@.dom() == s0.key_last_repeat_time@.dom(),
                forall|k: KeyCode|
                    s0.key_last_repeat_time@.contains_key(k) ==> #[trigger] self.key_last_repeat_time@[k] == if (exists|q: int|
                        0 <= q < r && (#[trigger] kr[q]).0 == k) && s0.repeats_at(k, now) && s0.key_in_use(k) {
                        now
                    } else {
                        s0.key_last_repeat_time@[k]
                    },
            decreases kr.len() - r,
        {
            let (k, cfg) = self.action_mapping.config.key_repeat[r];
            proof {
                lemma_repeat_of(s0.action_mapping.config, r as int);
                assert forall|q: int| 0 <= q < r implies (#[trigger] kr[q]).0 != k by {
                    assert(kr[q].0 != kr[r as int].0);
                }
                if s0.key_last_repeat_time@.contains_key(k) {
                    assert(self.key_last_repeat_time@[k] == s0.key_last_repeat_time@[k]);
                }
            }
            let mut fired = false;
            if has_key(&self.keys_pressed, k) {
                match self.key_last_press_time.get(&k) {
                    Some(press) => {
                        let press = *press;
                        if now >= press && now - press >= cfg.delay_ms {
                            match self.key_last_repeat_time.get(&k) {
                                Some(rep) => {
                                    let rep = *rep;
                                    if now >= rep && now - rep >= cfg.interval_ms {
                                        fired = true;
                                    }
                                },
                                None => {},
                            }
                        }
                    },
                    None => {},
                }
            }
            proof {
                assert(fired == s0.repeats_at(k, now));
            }
            let ghost before = *self;
            if fired {
                self.fire_repeat(k, now);
            }
            proof {
                assert forall|a: Seq<char>| #[trigger] self.action_mapping.active(a) == (s0.action_mapping.active(a)
                    || s0.repeat_upto(a, r + 1, now)) by {
                    assert(before.action_mapping.active(a) == (s0.action_mapping.active(a) || s0.repeat_upto(a, r as int, now)));
                    if s0.repeat_upto(a, r + 1, now) && !s0.repeat_upto(a, r as int, now) {
                        let q = choose|q: int|
                            0 <= q < r + 1 && s0.repeats_at((#[trigger] kr[q]).0, now) && s0.action_mapping.config.key_bound(
                                a,
                                kr[q].0,
                            );
                        assert(q == r);
                    }
                    if fired && s0.action_mapping.config.key_bound(a, k) {
                        assert(s0.repeats_at(kr[r as int].0, now));
                    }
                }
                assert forall|kk: KeyCode|
                    s0.key_last_repeat_time@.contains_key(kk) implies #[trigger] self.key_last_repeat_time@[kk] == if (exists|q: int|
                        0 <= q < r + 1 && (#[trigger] kr[q]).0 == kk) && s0.repeats_at(kk, now) && s0.key_in_use(kk) {
                        now
                    } else {
                        s0.key_last_repeat_time@[kk]
                    } by {
                    assert(before.key_last_repeat_time@[kk] == if (exists|q: int|
                        0 <= q < r && (#[trigger] kr[q]).0 == kk) && s0.repeats_at(kk, now) && s0.key_in_use(kk) {
                        now
                    } else {
                        s0.key_last_repeat_time@[kk]
                    });
                    if kk == k {
                        assert(kr[r as int].0 == kk);
                        assert(!(exists|q: int| 0 <= q < r && (#[trigger] kr[q]).0 == kk));
                        assert(before.key_in_use(k) == s0.key_in_use(k));
                    } else {
                        if exists|q: int| 0 <= q < r + 1 && (#[trigger] kr[q]).0 == kk {
                            let q = choose|q: int| 0 <= q < r + 1 && (#[trigger] kr[q]).0 == kk;
                            assert(q < r);
                        }
                    }
                }
            }
            r = r + 1;
        }
        proof {
            assert forall|a: Seq<char>| true implies s0.repeat_upto(a, kr.len() as int, now) == s0.repeat_triggers(a, now) by {
                lemma_repeat_all(s0, a, now);
            }
            assert forall|k: KeyCode| s0.key_last_repeat_time@.contains_key(k) && s0.repeats_at(k, now) implies (exists|q: int|
                0 <= q < kr.len() && (#[trigger] kr[q]).0 == k) by {
                let i = choose|i: int| 0 <= i < kr.len() && (#[trigger] kr[i]).0 == k;
            }
        }
    }

    /// Moves the actions on by one frame at time `now`: the active ones
    /// become the previous ones, and the actions are recomputed from the
    /// keys, the buttons and the repeating keys (see `actions_updated`).
    pub fn update_actions(&mut self, now: u64)
        requires
            old(self).action_mapping.wf(),
        ensures
            old(self).actions_updated(*final(self), now),
    {
        let ghost s0 = *self;
        let previous = copy_names(&self.action_mapping.active_actions);
        self.action_mapping.previous_actions = previous;
        self.action_mapping.active_actions = Vec::new();
        proof {
            assert forall|a: Seq<char>| #[trigger] self.action_mapping.was_active(a) == s0.action_mapping.active(a) by {
                let p = self.action_mapping.previous_actions@;
                let q = s0.action_mapping.active_actions@;
                if has_name(p, a) {
                    let i = choose|i: int| 0 <= i < p.len() && (#[trigger] p[i])@ == a;
                    assert(q[i]@ == a);
                }
                if has_name(q, a) {
                    let i = choose|i: int| 0 <= i < q.len() && (#[trigger] q[i])@ == a;
                    assert(p[i]@ == a);
                }
            }
            let p = self.action_mapping.previous_actions@;
            let q = s0.action_mapping.active_actions@;
            assert forall|i: int, j: int| 0 <= i < p.len() && 0 <= j < p.len() && i != j implies (#[trigger] p[i])@
                != (#[trigger] p[j])@ by {
                assert(p[i]@ == q[i]@ && p[j]@ == q[j]@);
            }
            assert forall|a: Seq<char>| !self.action_mapping.active(a) by {}
        }
        let ghost s1 = *self;
        self.activate_from_keys(now);
        let ghost s2 = *self;
        self.activate_from_buttons(now);
        let ghost s3 = *self;
        self.apply_repeats(now);
        proof {
            assert forall|a: Seq<char>| #[trigger] self.action_mapping.active(a) == (s0.keys_trigger(a) || s0.buttons_trigger(a)
                || s0.repeat_triggers(a, now)) by {
                assert(s1.keys_trigger(a) == s0.keys_trigger(a));
                assert(s2.buttons_trigger(a) == s0.buttons_trigger(a));
                assert(s3.repeat_triggers(a, now) == s0.repeat_triggers(a, now));
                assert(s3.action_mapping.active(a) == (s2.action_mapping.active(a) || s2.buttons_trigger(a)));
                assert(s2.action_mapping.active(a) == (s1.action_mapping.active(a) || s1.keys_trigger(a)));
            }
            assert forall|a: Seq<char>| #[trigger] self.action_mapping.start_of(a) == if (s0.keys_trigger(a) || s0.buttons_trigger(a))
                && !s0.action_mapping.active(a) {
                Some(now)
            } else {
                s0.action_mapping.start_of(a)
            } by {
                assert(s1.keys_trigger(a) == s0.keys_trigger(a));
                assert(s2.buttons_trigger(a) == s0.buttons_trigger(a));
                assert(s1.action_mapping.was_active(a) == s0.action_mapping.active(a));
                assert(s2.action_mapping.was_active(a) == s0.action_mapping.active(a));
                assert(s2.action_mapping.start_of(a) == if s1.keys_trigger(a) && !s1.action_mapping.was_active(a) {
                    Some(now)
                } else {
                    s1.action_mapping.start_of(a)
                });
                assert(s3.action_mapping.start_of(a) == if s2.buttons_trigger(a) && !s2.action_mapping.was_active(a) {
                    Some(now)
                } else {
                    s2.action_mapping.start_of(a)
                });
                assert(s2.action_mapping.active(a) == (s1.action_mapping.active(a) || s1.keys_trigger(a)));
                assert(!s1.action_mapping.active(a));
            }
            assert forall|a: Seq<char>| #[trigger] self.action_mapping.valued(a) == (s0.action_mapping.valued(a)
                || s0.keys_trigger(a) || s0.buttons_trigger(a)) by {
                assert(s1.keys_trigger(a) == s0.keys_trigger(a));
                assert(s2.buttons_trigger(a) == s0.buttons_trigger(a));
                assert(s2.action_mapping.valued(a) == (s1.action_mapping.valued(a) || s1.keys_trigger(a)));
                assert(s3.action_mapping.valued(a) == (s2.action_mapping.valued(a) || s2.buttons_trigger(a)));
            }
            assert forall|a: Seq<char>| #[trigger] self.action_mapping.was_active(a) == s0.action_mapping.active(a) by {
                assert(s1.action_mapping.was_active(a) == s0.action_mapping.active(a));
            }
            assert forall|k: KeyCode| s0.key_last_repeat_time@.contains_key(k) implies #[trigger] self.key_last_repeat_time@[k]
                == if s0.repeats_at(k, now) && s0.key_in_use(k) {
                now
            } else {
                s0.key_last_repeat_time@[k]
            } by {
                assert(s3.repeats_at(k, now) == s0.repeats_at(k, now));
                assert(s3.key_in_use(k) == s0.key_in_use(k));
            }
        }
    }

    /// Ends a frame at time `now`: updates the actions, then remembers
    /// the keys and buttons as the previous frame's.
    pub fn update(&mut self, now: u64)
        requires
            old(self).wf(),
        ensures
            final(self).wf(),
            exists|mid: InputState| #[trigger] old(self).actions_updated(mid, now) && *final(self) == (InputState {
                keys_previous: final(self).keys_previous,
                mouse_buttons_previous: final(self).mouse_buttons_previous,
                ..mid
            }),
            final(self).keys_previous@ == old(self).keys_pressed@,
            final(self).mouse_buttons_previous@ == old(self).mouse_buttons@,
    {
        self.update_actions(now);
        let ghost mid = *self;
        self.keys_previous = copy_keys(&self.keys_pressed);
        self.mouse_buttons_previous = self.mouse_buttons.clone();
        proof {
            assert(old(self).actions_updated(mid, now));
        }
    }
}

/// Binding a key to an action and unbinding it again leaves the bindings
/// as they were, when the key was not bound to the action before.
pub proof fn lemma_bind_then_unbind(c0: KeyConfig, c1: KeyConfig, c2: KeyConfig, a: Seq<char>, k: KeyCode)
    requires
        c0.with_key(c1, a, k),
        c1.without_key(c2, a, k),
        !c0.key_bound(a, k),
    ensures
        forall|b: Seq<char>, j: KeyCode| #[trigger] c2.key_bound(b, j) == c0.key_bound(b, j),
{
    assert forall|b: Seq<char>, j: KeyCode| #[trigger] c2.key_bound(b, j) == c0.key_bound(b, j) by {
        assert(c2.key_bound(b, j) <==> c1.key_bound(b, j) && !(b == a && j == k));
        assert(c1.key_bound(b, j) <==> c0.key_bound(b, j) || (b == a && j == k));
    }
}

/// Pressing a key that was up and releasing it again leaves the held keys
/// as they were.
pub proof fn lemma_press_then_release(s0: InputState, s1: InputState, s2: InputState, k: KeyCode)
    requires
        s0.keys_set(s1, k, true),
        s1.keys_set(s2, k, false),
        !s0.pressed(k),
    ensures
        forall|j: KeyCode| #[trigger] s2.pressed(j) == s0.pressed(j),
{
    assert forall|j: KeyCode| #[trigger] s2.pressed(j) == s0.pressed(j) by {
        assert(s2.pressed(j) == if j == k {
            false
        } else {
            s1.pressed(j)
        });
        assert(s1.pressed(j) == if j == k {
            true
        } else {
            s0.pressed(j)
        });
    }
}

} // verus!
