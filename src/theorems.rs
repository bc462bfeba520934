use crate::bigendian::{
    be16_bytes, be16_value, be32_bytes, be32_value, lemma_be16_bytes_of_value,
    lemma_be16_value_of_bytes, lemma_be32_bytes_of_value, lemma_be32_value_of_bytes,
};
use crate::format::{
    decoding, encoding, entry_fits, fits_wire, header_block, header_record, parse_payloads,
    parse_record, parse_records, payload_block, DecodeError,
};
use vstd::prelude::*;
use vstd::utf8::{
    decode_utf8_encode_utf8, encode_utf8, encode_utf8_decode_utf8, encode_utf8_valid_utf8,
};

verus! {

/// The header records that an archive's entries give: each name with the
/// length of its payload.
pub(crate) open spec fn records_of(a: Seq<(Seq<char>, Seq<u8>)>) -> Seq<(Seq<char>, nat)> {
    a.map_values(|e: (Seq<char>, Seq<u8>)| (e.0, e.1.len()))
}

/// The header block starts with the record of the first entry.
proof fn lemma_header_block_first(a: Seq<(Seq<char>, Seq<u8>)>)
    requires
        a.len() > 0,
    ensures
        header_block(a) == header_record(a[0]) + header_block(a.drop_first()),
{
    let f = |e: (Seq<char>, Seq<u8>)| header_record(e);
    assert(a.map_values(f).drop_first() =~= a.drop_first().map_values(f));
}

/// The payload block starts with the payload of the first entry.
proof fn lemma_payload_block_first(a: Seq<(Seq<char>, Seq<u8>)>)
    requires
        a.len() > 0,
    ensures
        payload_block(a) == a[0].1 + payload_block(a.drop_first()),
{
    let f = |e: (Seq<char>, Seq<u8>)| e.1;
    assert(a.map_values(f).drop_first() =~= a.drop_first().map_values(f));
}

/// An encoded header record reads back as the entry's name and length.
proof fn lemma_parse_record_of(e: (Seq<char>, Seq<u8>), rest: Seq<u8>)
    requires
        entry_fits(e),
    ensures
        parse_record(header_record(e) + rest) == Ok::<_, DecodeError>(
            ((e.0, e.1.len()), rest),
        ),
{
    let nb = encode_utf8(e.0);
    let n = nb.len() as int;
    let b = header_record(e) + rest;
    lemma_be16_value_of_bytes(n as u16);
    lemma_be32_value_of_bytes(e.1.len() as u32);
    encode_utf8_valid_utf8(e.0);
    encode_utf8_decode_utf8(e.0);
    assert(b.take(2) =~= be16_bytes(n as u16));
    assert(b.subrange(2, 2 + n) =~= nb);
    assert(b.subrange(2 + n, 2 + n + 4) =~= be32_bytes(e.1.len() as u32));
    assert(b.skip(2 + n + 4) =~= rest);
}

/// The header block of an archive reads back as its records.
proof fn lemma_parse_records_of(a: Seq<(Seq<char>, Seq<u8>)>, rest: Seq<u8>)
    requires
        fits_wire(a),
    ensures
        parse_records(header_block(a) + rest, a.len()) == Ok::<_, DecodeError>(
            (records_of(a), rest),
        ),
    decreases a.len(),
{
    if a.len() == 0 {
        assert(header_block(a) + rest =~= rest);
        assert(records_of(a) =~= seq![]);
    } else {
        let t = a.drop_first();
        assert(entry_fits(a[0]));
        assert forall|i: int| 0 <= i < t.len() implies #[trigger] entry_fits(t[i]) by {
            assert(entry_fits(a[i + 1]));
        }
        lemma_header_block_first(a);
        assert(header_block(a) + rest =~= header_record(a[0]) + (header_block(t) + rest));
        lemma_parse_record_of(a[0], header_block(t) + rest);
        lemma_parse_records_of(t, rest);
        assert(records_of(a) =~= seq![(a[0].0, a[0].1.len())] + records_of(t));
    }
}

/// The payload block of an archive, read with its records, gives back
/// its entries.
proof fn lemma_parse_payloads_of(a: Seq<(Seq<char>, Seq<u8>)>, rest: Seq<u8>)
    ensures
        parse_payloads(records_of(a), payload_block(a) + rest) == Ok::<_, DecodeError>(
            (a, rest),
        ),
    decreases a.len(),
{
    if a.len() == 0 {
        assert(payload_block(a) + rest =~= rest);
        assert(a =~= seq![]);
    } else {
        let t = a.drop_first();
        let b = payload_block(a) + rest;
        lemma_payload_block_first(a);
        assert(records_of(a).drop_first() =~= records_of(t));
        assert(b.take(a[0].1.len() as int) =~= a[0].1);
        assert(b.skip(a[0].1.len() as int) =~= payload_block(t) + rest);
        lemma_parse_payloads_of(t, rest);
        assert(seq![a[0]] + t =~= a);
    }
}

/// Decoding the encoding of an archive whose lengths fit their fields
/// gives back the same entries, in the same order.
pub proof fn lemma_round_trip(a: Seq<(Seq<char>, Seq<u8>)>)
    requires
        fits_wire(a),
    ensures
        decoding(encoding(a)) == Ok::<_, DecodeError>(a),
{
    let b = encoding(a);
    lemma_be32_value_of_bytes(a.len() as u32);
    assert(b.take(4) =~= be32_bytes(a.len() as u32));
    assert(b.skip(4) =~= header_block(a) + payload_block(a));
    lemma_parse_records_of(a, payload_block(a));
    assert(payload_block(a) =~= payload_block(a) + seq![]);
    lemma_parse_payloads_of(a, seq![]);
}

/// A header record cut short does not read.
proof fn lemma_parse_record_cut(e: (Seq<char>, Seq<u8>), k: int)
    requires
        entry_fits(e),
        0 <= k < header_record(e).len(),
    ensures
        parse_record(header_record(e).take(k)) == Err::<((Seq<char>, nat), Seq<u8>), _>(
            DecodeError::UnexpectedEnd,
        ),
{
    let nb = encode_utf8(e.0);
    let n = nb.len() as int;
    let b = header_record(e).take(k);
    lemma_be16_value_of_bytes(n as u16);
    if k >= 2 {
        assert(b.take(2) =~= be16_bytes(n as u16));
        if k >= 2 + n {
            encode_utf8_valid_utf8(e.0);
            assert(b.subrange(2, 2 + n) =~= nb);
        }
    }
}

/// A header block cut short does not read.
proof fn lemma_parse_records_cut(a: Seq<(Seq<char>, Seq<u8>)>, j: int)
    requires
        fits_wire(a),
        0 <= j < header_block(a).len(),
    ensures
        parse_records(header_block(a).take(j), a.len()) == Err::<
            (Seq<(Seq<char>, nat)>, Seq<u8>),
            _,
        >(DecodeError::UnexpectedEnd),
    decreases a.len(),
{
    if a.len() == 0 {
        assert(header_block(a) =~= seq![]);
    } else {
        let t = a.drop_first();
        let r0 = header_record(a[0]);
        assert(entry_fits(a[0]));
        assert forall|i: int| 0 <= i < t.len() implies #[trigger] entry_fits(t[i]) by {
            assert(entry_fits(a[i + 1]));
        }
        lemma_header_block_first(a);
        if j < r0.len() {
            assert(header_block(a).take(j) =~= r0.take(j));
            lemma_parse_record_cut(a[0], j);
        } else {
            let rest = header_block(t).take(j - r0.len());
            assert(header_block(a).take(j) =~= r0 + rest);
            lemma_parse_record_of(a[0], rest);
            lemma_parse_records_cut(t, j - r0.len());
        }
    }
}

/// A payload block cut short does not read.
proof fn lemma_parse_payloads_cut(a: Seq<(Seq<char>, Seq<u8>)>, m: int)
    requires
        0 <= m < payload_block(a).len(),
    ensures
        parse_payloads(records_of(a), payload_block(a).take(m)) == Err::<
            (Seq<(Seq<char>, Seq<u8>)>, Seq<u8>),
            _,
        >(DecodeError::UnexpectedEnd),
    decreases a.len(),
{
    if a.len() == 0 {
        assert(payload_block(a) =~= seq![]);
    } else {
        let t = a.drop_first();
        let d0 = a[0].1;
        let b = payload_block(a).take(m);
        lemma_payload_block_first(a);
        if m >= d0.len() {
            assert(records_of(a).drop_first() =~= records_of(t));
            assert(b.skip(d0.len() as int) =~= payload_block(t).take(m - d0.len()));
            lemma_parse_payloads_cut(t, m - d0.len());
        }
    }
}

/// Decoding an encoded archive that has lost its last bytes fails because
/// the input ends early; nothing cut short decodes.
pub proof fn lemma_truncated_fails(a: Seq<(Seq<char>, Seq<u8>)>, k: int)
    requires
        fits_wire(a),
        0 <= k < encoding(a).len(),
    ensures
        decoding(encoding(a).take(k)) == Err::<Seq<(Seq<char>, Seq<u8>)>, _>(
            DecodeError::UnexpectedEnd,
        ),
{
    let b = encoding(a).take(k);
    let h = header_block(a);
    let p = payload_block(a);
    if k >= 4 {
        lemma_be32_value_of_bytes(a.len() as u32);
        assert(b.take(4) =~= be32_bytes(a.len() as u32));
        if k - 4 < h.len() {
            assert(b.skip(4) =~= h.take(k - 4));
            lemma_parse_records_cut(a, k - 4);
        } else {
            let m = k - 4 - h.len();
            assert(b.skip(4) =~= h + p.take(m));
            lemma_parse_records_of(a, p.take(m));
            lemma_parse_payloads_cut(a, m);
        }
    }
}

/// A header record that reads is the record of an entry that fits, with
/// the name read and a payload of the length read.
proof fn lemma_parse_record_layout(b: Seq<u8>, d: Seq<u8>)
    requires
        parse_record(b) is Ok,
        d.len() == parse_record(b)->Ok_0.0.1,
    ensures
        ({
            let (r, rest) = parse_record(b)->Ok_0;
            entry_fits((r.0, d)) && b == header_record((r.0, d)) + rest
        }),
{
    let (r, rest) = parse_record(b)->Ok_0;
    let n = be16_value(b.take(2)) as int;
    let nb = b.subrange(2, 2 + n);
    lemma_be16_bytes_of_value(b.take(2));
    lemma_be32_bytes_of_value(b.subrange(2 + n, 2 + n + 4));
    decode_utf8_encode_utf8(nb);
    assert(encode_utf8(r.0) == nb);
    assert(b =~= header_record((r.0, d)) + rest);
}

/// A header block that reads is the header block of any archive whose
/// records are the ones read, and the lengths of such an archive fit.
proof fn lemma_parse_records_layout(b: Seq<u8>, count: nat, a: Seq<(Seq<char>, Seq<u8>)>)
    requires
        parse_records(b, count) is Ok,
        records_of(a) == parse_records(b, count)->Ok_0.0,
    ensures
        a.len() == count,
        forall|i: int| 0 <= i < a.len() ==> #[trigger] entry_fits(a[i]),
        b == header_block(a) + parse_records(b, count)->Ok_0.1,
    decreases count,
{
    let (rs, rest) = parse_records(b, count)->Ok_0;
    if count == 0 {
        assert(a =~= seq![]);
        assert(header_block(a) + rest =~= rest);
    } else {
        let (r, rest1) = parse_record(b)->Ok_0;
        let p = parse_records(rest1, (count - 1) as nat);
        assert(p is Ok);
        let rs2 = p->Ok_0.0;
        assert(rs == seq![r] + rs2);
        let t = a.drop_first();
        assert(a.len() == rs.len());
        assert forall|i: int| 0 <= i < t.len() implies records_of(t)[i] == rs2[i] by {
            assert(t[i] == a[i + 1]);
            assert(records_of(a)[i + 1] == rs[i + 1]);
        }
        assert(records_of(t) =~= rs2);
        lemma_parse_records_layout(rest1, (count - 1) as nat, t);
        assert(a[0].1.len() == rs[0].1);
        lemma_parse_record_layout(b, a[0].1);
        assert((r.0, a[0].1) == a[0]);
        lemma_header_block_first(a);
        assert(b =~= header_block(a) + rest);
        assert forall|i: int| 0 <= i < a.len() implies #[trigger] entry_fits(a[i]) by {
            if i > 0 {
                assert(a[i] == t[i - 1]);
            }
        }
    }
}

/// Payloads that read are the payload block of the entries read, whose
/// records are the ones they were read with.
proof fn lemma_parse_payloads_layout(rs: Seq<(Seq<char>, nat)>, b: Seq<u8>)
    requires
        parse_payloads(rs, b) is Ok,
    ensures
        ({
            let (es, rest) = parse_payloads(rs, b)->Ok_0;
            records_of(es) == rs && b == payload_block(es) + rest
        }),
    decreases rs.len(),
{
    let (es, rest) = parse_payloads(rs, b)->Ok_0;
    if rs.len() == 0 {
        assert(records_of(es) =~= rs);
        assert(payload_block(es) + rest =~= b);
    } else {
        let k = rs[0].1 as int;
        let rest1 = b.skip(k);
        let p = parse_payloads(rs.drop_first(), rest1);
        assert(p is Ok);
        let e0 = (rs[0].0, b.take(k));
        assert(es == seq![e0] + p->Ok_0.0);
        assert(rest == p->Ok_0.1);
        lemma_parse_payloads_layout(rs.drop_first(), rest1);
        let t = es.drop_first();
        assert(t =~= p->Ok_0.0);
        assert(es[0] == e0);
        assert(b.len() >= k);
        assert forall|i: int| 0 <= i < es.len() implies records_of(es)[i] == rs[i] by {
            if i > 0 {
                assert(es[i] == t[i - 1]);
                assert(records_of(t)[i - 1] == rs.drop_first()[i - 1]);
            }
        }
        assert(records_of(es) =~= rs);
        lemma_payload_block_first(es);
        assert(rest1 == payload_block(t) + rest);
        assert(b =~= b.take(k) + rest1);
        assert(b =~= payload_block(es) + rest);
    }
}

/// What decodes is laid out exactly as the encoding of the entries
/// decoded: the input starts with their count, then their header records
/// in the order of the entries, then their payloads in that same order.
pub proof fn lemma_decoded_layout(b: Seq<u8>)
    requires
        decoding(b) is Ok,
    ensures
        fits_wire(decoding(b)->Ok_0),
        encoding(decoding(b)->Ok_0).len() <= b.len(),
        b.take(encoding(decoding(b)->Ok_0).len() as int) == encoding(decoding(b)->Ok_0),
{
    let a = decoding(b)->Ok_0;
    assert(b.len() >= 4);
    let count = be32_value(b.take(4));
    let pr = parse_records(b.skip(4), count);
    assert(pr is Ok);
    let rs = pr->Ok_0.0;
    let rest = pr->Ok_0.1;
    let pp = parse_payloads(rs, rest);
    assert(pp is Ok);
    assert(a == pp->Ok_0.0);
    let rest2 = pp->Ok_0.1;
    lemma_parse_payloads_layout(rs, rest);
    lemma_parse_records_layout(b.skip(4), count, a);
    lemma_be32_bytes_of_value(b.take(4));
    assert(a.len() == count);
    let h = header_block(a);
    let p = payload_block(a);
    let c = be32_bytes(a.len() as u32);
    assert(b.take(4) == c);
    assert(b.skip(4) == h + (p + rest2));
    assert(b =~= c + (h + (p + rest2)));
    assert(encoding(a) == c + h + p);
    assert(c + (h + (p + rest2)) =~= (c + h + p) + rest2);
    assert(b.take(encoding(a).len() as int) =~= encoding(a));
}

} // verus!
