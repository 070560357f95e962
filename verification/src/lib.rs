//! Hotkey matching and remapping engine.
//!
//! The library keeps a canonical, order-independent model of which keys are
//! down, held or released (`keystate`), compiles human-readable hotkey
//! patterns into that model (`pattern`, `compile`), stores compiled combos in
//! a match table (`hotmap`), and decides per event batch whether to dispatch
//! a handler, forward the raw events, or suppress them (`session`). The
//! user-declared name and rule tables live in `tables`; `hotkey` holds the
//! restricted modifier-mask view of a compiled pattern. Reading the
//! physical device and emitting through the virtual one are the callers'
//! business: the library works on plain event triples.

pub mod compile;
pub mod hotkey;
pub mod hotmap;
pub mod keystate;
pub mod pattern;
pub mod session;
pub mod tables;
