use quake_tools::hotkeys::{hotkey_poll, keys_contain, map_hotkey_to_keycode, str_eq, Hotkey, KeyPoller};
use quake_tools::timer::TimerState;

#[test]
fn the_six_hotkey_names_resolve() {
    assert_eq!(map_hotkey_to_keycode("Key1"), Some(Hotkey::Key1));
    assert_eq!(map_hotkey_to_keycode("Key2"), Some(Hotkey::Key2));
    assert_eq!(map_hotkey_to_keycode("Key3"), Some(Hotkey::Key3));
    assert_eq!(map_hotkey_to_keycode("F1"), Some(Hotkey::F1));
    assert_eq!(map_hotkey_to_keycode("F2"), Some(Hotkey::F2));
    assert_eq!(map_hotkey_to_keycode("F3"), Some(Hotkey::F3));
}

#[test]
fn other_hotkey_names_are_unsupported() {
    assert_eq!(map_hotkey_to_keycode("Key4"), None);
    assert_eq!(map_hotkey_to_keycode("key1"), None);
    assert_eq!(map_hotkey_to_keycode("F10"), None);
    assert_eq!(map_hotkey_to_keycode(""), None);
    assert_eq!(map_hotkey_to_keycode("Key1 "), None);
}

#[test]
fn str_eq_compares_contents() {
    assert!(str_eq("abc", "abc"));
    assert!(str_eq("", ""));
    assert!(!str_eq("abc", "abd"));
    assert!(!str_eq("abc", "abcd"));
}

#[test]
fn keys_contain_finds_keys() {
    let keys = vec![Hotkey::F1, Hotkey::Key2];
    assert!(keys_contain(&keys, Hotkey::F1));
    assert!(keys_contain(&keys, Hotkey::Key2));
    assert!(!keys_contain(&keys, Hotkey::Key1));
    assert!(!keys_contain(&Vec::new(), Hotkey::Key1));
}

#[test]
fn a_key_held_across_two_polls_does_not_restart_the_timer() {
    let mut poller = KeyPoller::new();
    let mut megahealth = TimerState::new(35);
    let mut red_armor = TimerState::new(25);

    // first poll: rising edge, the megahealth timer starts at 1 s
    hotkey_poll(
        &mut poller,
        vec![Hotkey::Key1],
        Hotkey::Key1,
        Hotkey::Key2,
        &mut megahealth,
        &mut red_armor,
        1_000,
    );
    assert!(megahealth.is_running());
    assert!(!red_armor.is_running());
    assert_eq!(megahealth.time_left(1_000), 35);

    // second poll 50 ms later, key still held: no edge, start instant kept
    hotkey_poll(
        &mut poller,
        vec![Hotkey::Key1],
        Hotkey::Key1,
        Hotkey::Key2,
        &mut megahealth,
        &mut red_armor,
        1_050,
    );
    assert!(megahealth.is_running());
    // 10 s after the first start, 25 s remain — had the held key
    // restarted the timer at 1.05 s, 26 s would remain here
    assert_eq!(megahealth.time_left(11_000), 25);
}

#[test]
fn releasing_and_pressing_again_is_a_new_edge_but_start_is_idempotent() {
    let mut poller = KeyPoller::new();
    let mut megahealth = TimerState::new(35);
    let mut red_armor = TimerState::new(25);

    hotkey_poll(
        &mut poller,
        vec![Hotkey::Key2],
        Hotkey::Key1,
        Hotkey::Key2,
        &mut megahealth,
        &mut red_armor,
        2_000,
    );
    assert!(red_armor.is_running());
    assert!(!megahealth.is_running());

    // key released
    hotkey_poll(
        &mut poller,
        Vec::new(),
        Hotkey::Key1,
        Hotkey::Key2,
        &mut megahealth,
        &mut red_armor,
        2_050,
    );
    assert!(red_armor.is_running());

    // pressed again: an edge, but start on a running timer is a no-op,
    // so the countdown still dates from 2 s
    hotkey_poll(
        &mut poller,
        vec![Hotkey::Key2],
        Hotkey::Key1,
        Hotkey::Key2,
        &mut megahealth,
        &mut red_armor,
        7_000,
    );
    assert_eq!(red_armor.time_left(12_000), 15);
}

#[test]
fn hotkeys_only_arm_never_clear() {
    let mut poller = KeyPoller::new();
    let mut megahealth = TimerState::new(35);
    let mut red_armor = TimerState::new(25);
    megahealth.start(500);

    hotkey_poll(
        &mut poller,
        vec![Hotkey::Key1],
        Hotkey::Key1,
        Hotkey::Key2,
        &mut megahealth,
        &mut red_armor,
        4_500,
    );
    // still running from the first start instant, not reset or restarted
    assert!(megahealth.is_running());
    assert_eq!(megahealth.time_left(10_500), 25);
}
