//! Hides a byte message in the low bits of 16-bit PCM samples and reads it
//! back: a bit iterator over bytes, the failure function of a string and its
//! smallest period, and the encode and decode routines built on them, each
//! with a contract proved by Verus.

pub mod bit_iterator;
pub mod codec;
pub mod laws;
pub mod prefix_function;
pub mod text;
