//! Hides bytes inside text as runs of zero-width characters, and finds them again.
//!
//! A payload is written in base 4, each digit as one of four invisible characters
//! (`codec`, over the characters of `alphabet`). The encoded payload is put behind a
//! text between two zone flags, and found again by looking for pairs of flags (`zone`).
//! What can go wrong on the way back is in `error`.

pub mod alphabet;
pub mod codec;
pub mod error;
pub mod zone;
