//! A reverse-lookup table for 6-byte device identifiers (UIDs).
//!
//! Candidate binding phrases are drawn from newline-delimited word lists,
//! hashed with MD5 under fixed framing bytes, and truncated to 6 bytes; the
//! resulting (UID, phrase) pairs are kept in a table sorted by UID so that a
//! phrase can be recovered from its UID by binary search.  The table has a
//! compact binary serialization: a 4-byte little-endian entry count followed
//! by, for each entry, the 6 raw UID bytes and the zero-terminated phrase.

pub mod byteseq;
pub mod hashing;
pub mod laws;
pub mod table;
pub mod uid;
pub mod words;

pub use table::{respond_uid, Entry, Error, Table, UidResponse};
pub use uid::parse_uid;
pub use words::diceware_words;
