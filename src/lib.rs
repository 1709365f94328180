//! Packing of a ledger record into the bit strings of a minimal sequence of
//! group elements, and the exact inverse.
//!
//! The byte-to-group encoding itself lies outside this crate. Encoding a record
//! runs: `RecordEncoder::serialize` for the body's bytes; the group encoding of
//! each, which yields an element and a sign bit; `RecordEncoder::serialize_tail`
//! with those sign bits; and the group encoding of the tail, whose sign bit goes
//! along with the sequence. The nonce is element 0 as it is. Decoding runs:
//! `RecordEncoder::check_element_count`; the group decoding of the tail;
//! `RecordEncoder::sign_bits`; the group decoding of each body element under its
//! sign bit; and `RecordEncoder::deserialize`.
pub mod bits;
pub mod layout;
pub mod codec;
pub mod laws;

pub use layout::{CodecError, DecodedRecord, Record, RecordEncoder};
