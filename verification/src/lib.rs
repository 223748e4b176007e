//! exhume: resumable disk imaging and rescue.
//!
//! exhume reads a source (block device or file) block-wise and writes it to a
//! target, recording its progress in a state file. An interrupted run resumes by
//! re-running the same command, and read errors are recorded and skipped instead
//! of aborting the whole copy.
//!
//! The library decides and a driver acts: [`copier::Copier`] (and likewise
//! [`gapfill::GapFiller`] and [`verify::Verifier`]) names the next action, is
//! told how it went, and moves on. What whole runs guarantee is proved in
//! [`world`] and [`effects`]; what that comes to for the user, from the command
//! line to the bytes of source and target, in [`media`] and [`promises`]. The
//! rules for flags and refusals are in [`rules`], what one stage hands to the
//! next is in [`stages`], and what the user is told in [`answers`].

pub mod answers;
pub mod cli;
pub mod copier;
pub mod effects;
pub mod engine;
pub mod error;
pub mod gapfill;
pub mod hash;
pub mod mapfile;
pub mod media;
pub mod params;
pub mod path;
pub mod plan;
pub mod platform;
pub mod progress;
pub mod promises;
pub mod readback;
pub mod region;
pub mod report;
pub mod rounding;
pub mod rules;
pub mod safety;
pub mod stages;
pub mod state;
pub mod status;
pub mod text;
pub mod time;
pub mod verify;
pub mod world;

pub use engine::Summary;
pub use error::{Error, Result};
