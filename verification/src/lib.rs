//! A verified playback core for a programmatic note sequencer.
//!
//! The crate owns the discrete clock, the table of currently sounding notes,
//! and the per-source flow control of a tick scheduler. Sources hand the
//! scheduler batches of notes; the scheduler admits them, stops each exactly
//! once, and translates lifecycle changes into destination-addressed raw
//! events. Everything that touches a device — sleeping between ticks, signal
//! handling, the port connections themselves — stays outside; the crate only
//! decides.

pub mod midi;
pub mod player;
pub mod runner;
pub mod sequences;
