//! Side-channel protocol for mixing ordinary program output with live
//! progress indicators on a single text stream, together with the decoder
//! that rebuilds both on the receiving side.

pub mod format;
pub mod laws;
pub mod output;
pub mod protocol;
