//! Hotkey names, their mapping to physical keys, and the
//! edge-triggered poll step of the hotkey listener.

use vstd::prelude::*;
use crate::timer::TimerState;

verus! {

/// The closed set of physical keys a hotkey name may map to.
#[derive(Clone, Copy, PartialEq, Eq, Structural, Debug)]
pub enum Hotkey {
    Key1,
    Key2,
    Key3,
    F1,
    F2,
    F3,
}

/// Character-wise equality of two string slices.
pub fn str_eq(a: &str, b: &str) -> (r: bool)
    ensures
        r == (a@ == b@),
{
    let a_len = a.unicode_len();
    let b_len = b.unicode_len();
    if a_len != b_len {
        assert(a@ != b@) by {
            assert(a@.len() != b@.len());
        }
        return false;
    }
    let mut i: usize = 0;
    while i < a_len
        invariant
            i <= a_len,
            a_len == a@.len(),
            a_len == b@.len(),
            forall|j: int| 0 <= j < i ==> a@[j] == b@[j],
        decreases a_len - i,
    {
        if a.get_char(i) != b.get_char(i) {
            return false;
        }
        i = i + 1;
    }
    proof {
        assert(a@ =~= b@);
    }
    true
}

/// The mapping from a configured hotkey name to a physical key:
/// exactly the six accepted tokens resolve, every other name is
/// unsupported.
pub open spec fn spec_map_hotkey(name: Seq<char>) -> Option<Hotkey> {
    if name == "Key1"@ {
        Some(Hotkey::Key1)
    } else if name == "Key2"@ {
        Some(Hotkey::Key2)
    } else if name == "Key3"@ {
        Some(Hotkey::Key3)
    } else if name == "F1"@ {
        Some(Hotkey::F1)
    } else if name == "F2"@ {
        Some(Hotkey::F2)
    } else if name == "F3"@ {
        Some(Hotkey::F3)
    } else {
        None
    }
}

/// Resolves a configured hotkey name to its physical key, or `None`
/// for an unsupported name.
pub fn map_hotkey_to_keycode(hotkey: &str) -> (r: Option<Hotkey>)
    ensures
        r == spec_map_hotkey(hotkey@),
{
    if str_eq(hotkey, "Key1") {
        Some(Hotkey::Key1)
    } else if str_eq(hotkey, "Key2") {
        Some(Hotkey::Key2)
    } else if str_eq(hotkey, "Key3") {
        Some(Hotkey::Key3)
    } else if str_eq(hotkey, "F1") {
        Some(Hotkey::F1)
    } else if str_eq(hotkey, "F2") {
        Some(Hotkey::F2)
    } else if str_eq(hotkey, "F3") {
        Some(Hotkey::F3)
    } else {
        None
    }
}

/// The hotkey listener's memory between polls: the key set sampled at
/// the previous poll.
pub struct KeyPoller {
    pub last_keys: Vec<Hotkey>,
}

impl KeyPoller {
    /// A fresh listener that has sampled nothing yet, so the first
    /// poll sees every pressed key as a rising edge.
    pub fn new() -> (p: KeyPoller)
        ensures
            p.last_keys@ == Seq::<Hotkey>::empty(),
    {
        KeyPoller { last_keys: Vec::new() }
    }

    /// A rising edge: the key is in the current sample but was not in
    /// the previous one.
    pub open spec fn spec_edge(self, keys: Seq<Hotkey>, k: Hotkey) -> bool {
        keys.contains(k) && !self.last_keys@.contains(k)
    }
}

/// Whether a sampled key set contains the given key.
pub fn keys_contain(keys: &Vec<Hotkey>, k: Hotkey) -> (r: bool)
    ensures
        r == keys@.contains(k),
{
    let mut i: usize = 0;
    while i < keys.len()
        invariant
            i <= keys@.len(),
            forall|j: int| 0 <= j < i ==> keys@[j] != k,
        decreases keys@.len() - i,
    {
        if keys[i] == k {
            return true;
        }
        i = i + 1;
    }
    false
}

/// One poll of the hotkey listener over a sampled key set: each
/// tracked pickup whose hotkey shows a rising edge has its timer
/// started at `now_ms` — hotkeys only arm, never clear — and the
/// sample becomes the previous key set for the next poll. A key held
/// across polls is no edge, so it cannot touch a timer again.
pub fn hotkey_poll(
    poller: &mut KeyPoller,
    keys: Vec<Hotkey>,
    megahealth_hotkey: Hotkey,
    red_armor_hotkey: Hotkey,
    megahealth: &mut TimerState,
    red_armor: &mut TimerState,
    now_ms: u64,
)
    ensures
        old(poller).spec_edge(keys@, megahealth_hotkey) ==> *final(megahealth) == old(
            megahealth,
        ).spec_start(now_ms),
        !old(poller).spec_edge(keys@, megahealth_hotkey) ==> *final(megahealth) == *old(
            megahealth,
        ),
        old(poller).spec_edge(keys@, red_armor_hotkey) ==> *final(red_armor) == old(
            red_armor,
        ).spec_start(now_ms),
        !old(poller).spec_edge(keys@, red_armor_hotkey) ==> *final(red_armor) == *old(red_armor),
        final(poller).last_keys@ == keys@,
{
    let megahealth_edge = keys_contain(&keys, megahealth_hotkey) && !keys_contain(
        &poller.last_keys,
        megahealth_hotkey,
    );
    if megahealth_edge {
        megahealth.start(now_ms);
    }
    let red_armor_edge = keys_contain(&keys, red_armor_hotkey) && !keys_contain(
        &poller.last_keys,
        red_armor_hotkey,
    );
    if red_armor_edge {
        red_armor.start(now_ms);
    }
    poller.last_keys = keys;
}

} // verus!
