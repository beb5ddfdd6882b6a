//! Bit-level reading over a byte-oriented source.
//!
//! A `read::BitReaderBE` takes bytes from a `source::ByteSource` one at a time and hands
//! them out as bits, the most significant bit of each byte first. Every
//! operation is specified over the string of bits that the reader has yet to
//! deliver; the module `bits` defines how bytes and numbers relate to such
//! strings, and the module `laws` states what holds of the operations taken
//! together.
pub mod bits;
pub mod source;
pub mod read;
pub mod laws;
