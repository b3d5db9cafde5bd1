//! Verified core of the CS2 demo replay converter.
pub mod avatar;
pub mod catalog;
pub mod content;
pub mod cosmetics;
pub mod demo_input;
pub mod demo_series;
pub mod digest;
pub mod economy;
pub mod error;
pub mod event_text;
pub mod game_event;
pub mod gap_repair;
pub mod hifi;
pub mod inspect_link;
pub mod model;
pub mod motion;
pub mod playback;
pub mod quality;
pub mod round_export;
pub mod round_phase;
pub mod round_replay;
pub mod segment_merge;
pub mod segment_rounds;
pub mod source_state;
pub mod text;
pub mod weapon_evidence;
