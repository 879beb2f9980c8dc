//! Names the unit that is stalling a Linux system, and explains why.
//!
//! What the kernel says arrives as the text of its files. From there on the
//! library decides: who stalled ([`attribution`]), who was working meanwhile
//! ([`causes`]), which condition of the machine explains it ([`pathology`]),
//! what is recorded and read again ([`incident`], [`why`]), and what each
//! program, socket and page answers ([`cli`], [`daemon`], [`varlink`],
//! [`metrics`], [`doctor`]). What must hold of the answers stands in [`laws`].

pub mod text;
pub mod bignat;
pub mod float;
pub mod decimal;
pub mod shortest;
pub mod span;
pub mod sort;
pub mod path;
pub mod index;

pub mod psi;
pub mod cgroup;
pub mod iostat;
pub mod pathology;
pub mod report;
pub mod ranking;
pub mod attribution;
pub mod causes;
pub mod process;
pub mod ring;

pub mod json;
pub mod filter;
pub mod combine;
pub mod toml;
pub mod config;
pub mod incident;
pub mod logfile;
pub mod why;
pub mod appname;
pub mod notify;

pub mod ipc;
pub mod varlink;
pub mod trigger;
pub mod metrics;
pub mod doctor;
pub mod daemon;
pub mod cli;

pub mod wellformed;
pub mod oneline;
pub mod readback;
pub mod replies;

pub mod laws;
