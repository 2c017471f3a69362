//! A verified backend core for a multi-player drawing-and-guessing game.
//!
//! One participant is shown a secret word and draws it while the rest try to
//! guess it; a correct guess promotes the guesser to the next chooser.  The
//! crate covers the per-room state machine ([`session`]), the registry that
//! owns all rooms ([`registry`]), and the connection directory, exit tracker
//! and event dispatch that keep every connected participant's view consistent
//! ([`presence`]).  Network transport and encoding live outside this crate;
//! the library works on plain values and returns the decisions to carry out.

pub mod events;
pub mod presence;
pub mod registry;
pub mod session;
pub mod trusted;
