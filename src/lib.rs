//! RC5-32/12/16: key schedule expansion and two-word block encryption.
//!
//! `key_table` expands a 16-byte secret key into 26 round-key words;
//! `encode` and `decode` encrypt and decrypt one block of two words with it.
//! Bytes and words convert little-endian (`packing`).

pub mod cipher;
pub mod packing;
pub mod reverse;
pub mod word;

pub use cipher::{decode, encode, key_table};
pub use reverse::{CollectRev, FromIteratorRev};
pub use word::ArithExt;
