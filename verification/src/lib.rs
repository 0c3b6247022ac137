//! A state-machine compiler: parses a small textual description of a finite
//! state machine (states, optional per-state data, optional shared data,
//! `init` flags, and named transitions) into a validated machine definition,
//! and provides the runtime contract of the compiled machine: typed
//! instances, observer lifecycle hooks, and a restore/retrieve protocol.
pub mod compile;
pub mod machine;
pub mod names;
pub mod parse;
pub mod token;
pub mod value;

