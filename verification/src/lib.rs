//! Turns a package-manager transaction log into structured
//! statistics and history narratives: which commands were run, which
//! packages they installed, removed, upgraded or downgraded, and
//! which of the packages now present were asked for by name.
//!
//! The library parses raw log lines into a typed event stream and
//! computes every report as plain data; reading the log file and
//! rendering with colour and layout are a caller's concern.

pub mod event;
pub mod freq;
pub mod history;
pub mod narrator;
pub mod reconciler;
pub mod report;
pub mod seqs;
pub mod strutil;
pub mod timestamp;
