//! A Wayland clipboard-history service library.
//!
//! The daemon pipeline is: a selection change on the compositor is captured
//! (`capture`), admitted and de-duplicated against the history store
//! (`daemon`, `store`), and served to clients over a newline-delimited JSON
//! protocol (`protocol`, `codec`).  Paths and policy come from `paths` and
//! `config`.

pub mod capture;
pub mod codec;
pub mod config;
pub mod daemon;
pub mod paths;
pub mod protocol;
pub mod store;
pub mod text;
pub mod types;
