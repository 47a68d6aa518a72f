//! Group the processes of a machine by the value one environment variable
//! holds in each of them.
//!
//! The library covers the three stages of that job that are pure
//! computation: deciding which registry entries name a process
//! ([`parse`]), finding the variable's value inside a raw environment
//! block ([`extract`]), and collecting the per-process outcomes into
//! groups sorted by population ([`aggregate`]). Reading the process
//! registry and the environment-block files is input/output and stays
//! with the caller, which hands the raw bytes in and receives the
//! finished table back.

pub mod aggregate;
pub mod extract;
pub mod outcome;
pub mod parse;
