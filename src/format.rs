use crate::bigendian::{be16_bytes, be16_value, be32_bytes, be32_value};
use vstd::prelude::*;
use vstd::utf8::{decode_utf8, encode_utf8, valid_utf8};

verus! {

/// Why a byte string is not an archive.
#[derive(Clone, Copy, Debug, PartialEq, Eq)]
pub enum DecodeError {
    /// The input ends before a field or a payload is complete.
    UnexpectedEnd,
    /// The bytes of a name are not well-formed UTF-8.
    InvalidName,
}

/// Why an archive cannot be encoded.
#[derive(Clone, Copy, Debug, PartialEq, Eq)]
pub enum EncodeError {
    /// The entry count or a payload length exceeds 32 bits, or a name
    /// exceeds 65535 bytes of UTF-8.
    FieldOverflow,
}

/// Whether every length of the archive fits its field on the wire.
pub open spec fn fits_wire(a: Seq<(Seq<char>, Seq<u8>)>) -> bool {
    &&& a.len() <= u32::MAX
    &&& forall|i: int| 0 <= i < a.len() ==> #[trigger] entry_fits(a[i])
}

/// Whether the lengths of one entry fit their fields on the wire.
pub open spec fn entry_fits(e: (Seq<char>, Seq<u8>)) -> bool {
    encode_utf8(e.0).len() <= u16::MAX && e.1.len() <= u32::MAX
}

/// The header record of one entry: name length, name bytes, payload length.
pub open spec fn header_record(e: (Seq<char>, Seq<u8>)) -> Seq<u8> {
    be16_bytes(encode_utf8(e.0).len() as u16) + encode_utf8(e.0) + be32_bytes(e.1.len() as u32)
}

/// The header records of all entries, back to back.
pub open spec fn header_block(a: Seq<(Seq<char>, Seq<u8>)>) -> Seq<u8> {
    a.map_values(|e: (Seq<char>, Seq<u8>)| header_record(e)).flatten()
}

/// The payloads of all entries, back to back.
pub open spec fn payload_block(a: Seq<(Seq<char>, Seq<u8>)>) -> Seq<u8> {
    a.map_values(|e: (Seq<char>, Seq<u8>)| e.1).flatten()
}

/// The encoded archive: entry count, header block, payload block.
pub open spec fn encoding(a: Seq<(Seq<char>, Seq<u8>)>) -> Seq<u8> {
    be32_bytes(a.len() as u32) + header_block(a) + payload_block(a)
}

/// Reads one header record at the start of `b`: the name and the payload
/// length, with what follows the record.
pub open spec fn parse_record(b: Seq<u8>) -> Result<((Seq<char>, nat), Seq<u8>), DecodeError> {
    if b.len() < 2 {
        Err(DecodeError::UnexpectedEnd)
    } else {
        let n = be16_value(b.take(2)) as int;
        if b.len() < 2 + n {
            Err(DecodeError::UnexpectedEnd)
        } else if !valid_utf8(b.subrange(2, 2 + n)) {
            Err(DecodeError::InvalidName)
        } else if b.len() < 2 + n + 4 {
            Err(DecodeError::UnexpectedEnd)
        } else {
            let name = decode_utf8(b.subrange(2, 2 + n));
            let length = be32_value(b.subrange(2 + n, 2 + n + 4));
            Ok(((name, length), b.skip(2 + n + 4)))
        }
    }
}

/// Reads `count` header records at the start of `b`, with what follows them.
pub open spec fn parse_records(b: Seq<u8>, count: nat) -> Result<
    (Seq<(Seq<char>, nat)>, Seq<u8>),
    DecodeError,
>
    decreases count,
{
    if count == 0 {
        Ok((seq![], b))
    } else {
        match parse_record(b) {
            Err(e) => Err(e),
            Ok((r, rest)) => prepend_records(seq![r], parse_records(rest, (count - 1) as nat)),
        }
    }
}

/// `p` with the records `rs` put in front of the records it read.
pub open spec fn prepend_records(
    rs: Seq<(Seq<char>, nat)>,
    p: Result<(Seq<(Seq<char>, nat)>, Seq<u8>), DecodeError>,
) -> Result<(Seq<(Seq<char>, nat)>, Seq<u8>), DecodeError> {
    match p {
        Ok((more, rest)) => Ok((rs + more, rest)),
        Err(e) => Err(e),
    }
}

/// Reads the payloads that the records `rs` announce, in their order, at
/// the start of `b`: the entries, with what follows the payloads.
pub open spec fn parse_payloads(rs: Seq<(Seq<char>, nat)>, b: Seq<u8>) -> Result<
    (Seq<(Seq<char>, Seq<u8>)>, Seq<u8>),
    DecodeError,
>
    decreases rs.len(),
{
    if rs.len() == 0 {
        Ok((seq![], b))
    } else if b.len() < rs[0].1 {
        Err(DecodeError::UnexpectedEnd)
    } else {
        let e = (rs[0].0, b.take(rs[0].1 as int));
        prepend_entries(seq![e], parse_payloads(rs.drop_first(), b.skip(rs[0].1 as int)))
    }
}

/// `p` with the entries `es` put in front of the entries it read.
pub open spec fn prepend_entries(
    es: Seq<(Seq<char>, Seq<u8>)>,
    p: Result<(Seq<(Seq<char>, Seq<u8>)>, Seq<u8>), DecodeError>,
) -> Result<(Seq<(Seq<char>, Seq<u8>)>, Seq<u8>), DecodeError> {
    match p {
        Ok((more, rest)) => Ok((es + more, rest)),
        Err(e) => Err(e),
    }
}

/// The archive at the start of `b`: the count, then that many header
/// records, then their payloads. Bytes after the last payload are ignored.
pub open spec fn decoding(b: Seq<u8>) -> Result<Seq<(Seq<char>, Seq<u8>)>, DecodeError> {
    if b.len() < 4 {
        Err(DecodeError::UnexpectedEnd)
    } else {
        match parse_records(b.skip(4), be32_value(b.take(4))) {
            Err(e) => Err(e),
            Ok((rs, rest)) => match parse_payloads(rs, rest) {
                Err(e) => Err(e),
                Ok((es, _)) => Ok(es),
            },
        }
    }
}

/// The header block of the first `i + 1` entries extends that of the
/// first `i` by the record of entry `i`.
pub(crate) proof fn lemma_header_block_step(a: Seq<(Seq<char>, Seq<u8>)>, i: int)
    requires
        0 <= i < a.len(),
    ensures
        header_block(a.take(i + 1)) == header_block(a.take(i)) + header_record(a[i]),
{
    let f = |e: (Seq<char>, Seq<u8>)| header_record(e);
    assert(a.take(i + 1).map_values(f) =~= a.take(i).map_values(f).push(header_record(a[i])));
    a.take(i).map_values(f).lemma_flatten_push(header_record(a[i]));
}

/// The payload block of the first `i + 1` entries extends that of the
/// first `i` by the payload of entry `i`.
pub(crate) proof fn lemma_payload_block_step(a: Seq<(Seq<char>, Seq<u8>)>, i: int)
    requires
        0 <= i < a.len(),
    ensures
        payload_block(a.take(i + 1)) == payload_block(a.take(i)) + a[i].1,
{
    let f = |e: (Seq<char>, Seq<u8>)| e.1;
    assert(a.take(i + 1).map_values(f) =~= a.take(i).map_values(f).push(a[i].1));
    a.take(i).map_values(f).lemma_flatten_push(a[i].1);
}

/// Putting two groups of records in front, one after the other, is
/// putting their concatenation in front.
pub(crate) proof fn lemma_prepend_records_twice(
    h: Seq<(Seq<char>, nat)>,
    rs: Seq<(Seq<char>, nat)>,
    p: Result<(Seq<(Seq<char>, nat)>, Seq<u8>), DecodeError>,
)
    ensures
        prepend_records(h, prepend_records(rs, p)) == prepend_records(h + rs, p),
{
    if let Ok((more, rest)) = p {
        assert(h + (rs + more) =~= (h + rs) + more);
    }
}

/// Putting two groups of entries in front, one after the other, is
/// putting their concatenation in front.
pub(crate) proof fn lemma_prepend_entries_twice(
    h: Seq<(Seq<char>, Seq<u8>)>,
    es: Seq<(Seq<char>, Seq<u8>)>,
    p: Result<(Seq<(Seq<char>, Seq<u8>)>, Seq<u8>), DecodeError>,
)
    ensures
        prepend_entries(h, prepend_entries(es, p)) == prepend_entries(h + es, p),
{
    if let Ok((more, rest)) = p {
        assert(h + (es + more) =~= (h + es) + more);
    }
}

} // verus!
