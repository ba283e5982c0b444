//! Querying the system's network name database.
//!
//! The library holds the name service switch configuration and its parser,
//! the rule evaluation that decides which source is consulted next and how
//! the answers combine, and the lookup state machine that drives one host
//! lookup through its sources.
pub mod text;
pub mod nsswitch;
pub mod hosts;
pub mod files;
pub mod dns;
