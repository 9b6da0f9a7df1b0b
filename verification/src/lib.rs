//! Beat-grid click sequencing: note values, MIDI note messages, click
//! sequences, the per-cycle scheduler and the sequencer's bar-boundary
//! decisions.
//!
//! Every musical duration and position in this crate is counted in
//! *ticks*, a fixed subdivision of the quarter-note beat
//! ([`beat_values::TICKS_PER_BEAT`]), so that positions compare and add
//! exactly.

pub mod beat_values;
pub mod timeline;
pub mod sequencer;
pub mod playback;
pub mod note_map;
pub mod config;
pub mod session;
pub mod yaml_doc;
pub mod decimal;
