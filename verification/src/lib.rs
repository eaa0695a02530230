//! Restoring an arrangement of windows on the desktop.
//!
//! A saved layout describes windows by patterns for their owner and title and
//! says where each goes on its screen. The library finds out which live window
//! a description means, works out where the window is and where it should be
//! on the desktop, whatever has become of the screens since the layout was
//! saved, and asks for the moves that bring the desktop to the layout.
//!
//! The library does not talk to the operating system: it is given the screens
//! and windows that the desktop reports, and gives back requests to move.

pub mod args;
pub mod fraction;
pub mod geometry;
pub mod notation;
pub mod observe;
pub mod paths;
pub mod pattern;
pub mod position;
pub mod reconcile;
pub mod screens;
pub mod text;
pub mod window;
