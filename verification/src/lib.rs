//! Verified core of an ASCII crab renderer: the character frame with its
//! depth buffer, the brightness ramp, and the text that a frame prints as.

pub mod shade;
pub mod frame;
pub mod laws;
