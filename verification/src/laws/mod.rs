//! What the answers must satisfy, whatever computes them.
//!
//! Each law here speaks of what goes in and what comes out: of counters and the
//! stalls that are named for them, of texts and the numbers they hold. The
//! figures in them are the documented ones, written out.

pub mod blame;
pub mod condition;
pub mod filters;
pub mod kernel;
pub mod memory;
pub mod names;
pub mod notices;
pub mod numbers;
pub mod paths;
pub mod processes;
pub mod service;
pub mod settings;
pub mod storage;
pub mod telling;
pub mod texts;
pub mod wording;
pub mod work;
pub mod writing;
