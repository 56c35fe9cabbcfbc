//! The logic of commentlint: static analysis for code comments, powered by
//! TypeSafe.ai.
//!
//! Comments are taken out of source files ([`extract`], over the syntax trees of
//! [`grammar`]; what every tree and every text is promised stands in
//! [`collection`] and [`cleaning`]), queued with the configuration of their directories ([`jobs`],
//! [`config`], [`loader`]), put to TypeSafe.ai as yes/no questions
//! ([`typesafe`]), and reported where an answer lies below its threshold
//! ([`report`]). Which files are looked at is worked out in [`discover`] and
//! [`git`].
//!
//! Nothing here reads a file, runs a command or opens a connection: what is
//! needed from outside is asked for and handed in.

pub mod cleaning;
pub mod collection;
pub mod config;
pub mod discover;
pub mod extract;
pub mod git;
pub mod grammar;
pub mod jobs;
pub mod languages;
pub mod loader;
pub mod number;
pub mod order;
pub mod paths;
pub mod report;
pub mod score;
pub mod sort;
pub mod table;
pub mod text;
pub mod typesafe;
