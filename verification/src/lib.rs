//! Heads-up overlay core for tracking two pickup countdown timers
//! (megahealth and red armor), with hotkey edge-detection, periodic
//! display refresh, and a key=value configuration file.

pub mod config;
pub mod hotkeys;
pub mod timer;
