//! Converts a polyphonic MIDI performance into a small number of monophonic
//! text-encoded voice tracks in a compact music macro language (MML), subject
//! to a per-voice character budget.
//!
//! The pipeline runs in stages: `extract` normalizes parsed MIDI events into
//! grid-snapped notes and a tempo timeline; `voicing` distributes the notes
//! across monophonic voices; `lengths` quantizes tick durations into length
//! tokens; `mml` serializes one voice into MML text; `pipeline` and
//! `instrument` search for the longest prefix of the piece whose encodings
//! all fit a character budget; `convert` ties the stages together.

pub mod convert;
pub mod extract;
pub mod instrument;
pub mod lengths;
pub mod mml;
pub mod numfmt;
pub mod pipeline;
pub mod types;
pub mod voicing;
