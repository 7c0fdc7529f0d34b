//! Scoring and local search support for two-thumb swipe keyboard layouts.
//!
//! The library holds the physical layout model (positions, taps and swipes),
//! the character-to-position index of a layout, the compilation of a corpus
//! into counts of short character windows, the selection of the penalty terms
//! that apply to each window, and the enumeration of neighbouring layouts.
//! The numeric evaluation of the penalty terms is floating-point work and is
//! left to the caller.

pub mod layout;
pub mod penalty;
