//! The `.tara` container: named byte payloads packed behind a
//! length-prefixed header, with an encoder and a decoder proved against
//! a model of the wire layout (`encoding`, `decoding`).
//!
//! Layout, all integers big-endian: a `u32` entry count; for each entry a
//! `u16` name length, the name's UTF-8 bytes and a `u32` payload length;
//! then every payload, in entry order, back to back.

mod archive;
mod bigendian;
mod entry;
mod format;
mod theorems;

pub use archive::{entries_view, TaraArchive};
pub use bigendian::{be16_bytes, be16_value, be32_bytes, be32_value};
pub use entry::TaraEntry;
pub use format::{
    decoding, encoding, entry_fits, fits_wire, header_block, header_record, parse_payloads,
    parse_record, parse_records, payload_block, prepend_entries, prepend_records, DecodeError,
    EncodeError,
};
pub use theorems::{lemma_decoded_layout, lemma_round_trip, lemma_truncated_fails};
