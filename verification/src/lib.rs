//! A declarative local task runner: a configuration document declares named
//! command specifications ("runners"), standalone or in named groups, and a
//! query selects one runner, one group, or one `group.name` pair to run.
//!
//! The crate verifies the two engines that carry the logic: the reference
//! resolver and merger, which turns raw, possibly-indirect declarations
//! into a concrete immutable runner set; and the decision core of the
//! concurrent supervisor, which tears down every tracked process, with its
//! transitive OS descendants, once a process flagged `end_all_on_exit`
//! exits.  Process spawning, file reading and the command line itself stay
//! outside the library.

pub mod config;
pub mod error;
pub mod parse;
pub mod procs;
pub mod raw;
pub mod resolve;
pub mod runner;

pub use config::Config;
pub use error::Error;
pub use resolve::parse_awesome_toml;
pub use runner::{Invocation, Runner, ShouldRun};
