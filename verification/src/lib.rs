//! Host inventory for an SSH launcher: annotations read from the comments of
//! an SSH client configuration, a usage ledger, and the groups of hosts that
//! the two give, each with a contract that Verus proves.

pub mod annotations;
pub mod app;
pub mod database;
pub mod invariants;
pub mod ledger_text;
pub mod numbers;
pub mod ssh_config_store;
pub mod text;
pub mod text_map;
pub mod widgets;
