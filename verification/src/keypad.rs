//! Typing codes on a numeric keypad through a chain of directional keypads.
//!
//! `layout` says what a keypad and a route on it are, `routes` finds the
//! shortest routes between two buttons, `catalog` holds them for every pair
//! of buttons of a keypad, `pads` builds the two keypads of the puzzle,
//! `presses` counts what a sequence of buttons costs the human at the far
//! end of the chain, `counting` counts the same over the preferred routes
//! alone, `arms` says what the arms do when keys are pressed, and `codes`
//! scores door codes.

pub mod arms;
pub mod catalog;
pub mod codes;
pub mod counting;
pub mod layout;
pub mod pads;
pub mod presses;
pub mod routes;
