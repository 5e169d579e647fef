//! The runtime core of a USB keyboard controller: the pipeline that turns raw
//! switch samples into debounced key events, resolves them through a layered
//! keymap and serialises the keys held down into HID keyboard reports.
//!
//! The core touches no hardware. The lines of the key matrix and the USB
//! transport are driven by the firmware around it, which performs the commands
//! that the core hands out and feeds the results back in.
//!
//! - [`matrix`]: snapshots of the key matrix.
//! - [`scanner`]: which line to drive and which to read, row by row.
//! - [`debounce`]: confirmed presses and releases from noisy snapshots.
//! - [`layout`]: layers, held keys and hold-tap keys; [`layout_laws`] holds
//!   what is proved of them over whole sequences of inputs and of ticks.
//! - [`report`]: the bytes of a keyboard report.
//! - [`emitter`]: one report per tick, with a bounded number of writes.
//! - [`scheduler`]: the owner of all of these, and the two interrupt handlers.

pub mod debounce;
pub mod emitter;
pub mod layout;
pub mod layout_laws;
pub mod matrix;
pub mod report;
pub mod scanner;
pub mod scheduler;
