use crate::bigendian::{
    be32_bytes, be32_value, be_u16_bytes, be_u32_bytes, read_be_u16, read_be_u32,
};
use crate::entry::{TaraEntry, TaraHeaderEntry};
use crate::format::{
    decoding, encoding, entry_fits, fits_wire, header_block, lemma_header_block_step,
    lemma_payload_block_step, lemma_prepend_entries_twice, lemma_prepend_records_twice,
    parse_payloads, parse_records, payload_block, prepend_entries, prepend_records, DecodeError,
    EncodeError,
};
use vstd::array::array_as_slice;
use vstd::prelude::*;
use vstd::slice::{slice_subrange, slice_to_vec};
use vstd::utf8::{encode_utf8, encode_utf8_decode_utf8, valid_utf8};

verus! {

broadcast use vstd::utf8::group_utf8_lib;

/// An ordered collection of named byte payloads.
#[derive(Clone, Debug, PartialEq, Eq)]
pub struct TaraArchive {
    pub entries: Vec<TaraEntry>,
}

/// The views of a sequence of entries.
pub open spec fn entries_view(es: Seq<TaraEntry>) -> Seq<(Seq<char>, Seq<u8>)> {
    es.map_values(|e: TaraEntry| e@)
}

/// The views of a sequence of header records.
pub(crate) open spec fn records_view(hs: Seq<TaraHeaderEntry>) -> Seq<(Seq<char>, nat)> {
    hs.map_values(|h: TaraHeaderEntry| h@)
}

impl View for TaraArchive {
    type V = Seq<(Seq<char>, Seq<u8>)>;

    open spec fn view(&self) -> Seq<(Seq<char>, Seq<u8>)> {
        entries_view(self.entries@)
    }
}

/// Relies on std's `String::from_utf8`: it accepts exactly the well-formed
/// UTF-8 byte strings, and the string it returns holds those bytes.
#[verifier::external_body]
fn string_from_utf8(bytes: Vec<u8>) -> (r: Option<String>)
    ensures
        r is Some <==> valid_utf8(bytes@),
        r matches Some(s) ==> encode_utf8(s@) == bytes@,
{
    String::from_utf8(bytes).ok()
}

/// Appends `bytes` to `out`.
fn append_bytes(out: &mut Vec<u8>, bytes: &[u8])
    ensures
        final(out)@ == old(out)@ + bytes@,
{
    let mut i: usize = 0;
    while i < bytes.len()
        invariant
            i <= bytes@.len(),
            out@ == old(out)@ + bytes@.take(i as int),
        decreases bytes@.len() - i,
    {
        out.push(bytes[i]);
        i = i + 1;
        assert(out@ =~= old(out)@ + bytes@.take(i as int));
    }
    assert(bytes@.take(i as int) =~= bytes@);
}

/// Whether `a` and `b` hold the same text.
fn same_text(a: &str, b: &str) -> (r: bool)
    ensures
        r == (a@ == b@),
{
    let x = a.as_bytes();
    let y = b.as_bytes();
    proof {
        encode_utf8_decode_utf8(a@);
        encode_utf8_decode_utf8(b@);
        assert(x@ == encode_utf8(a@));
        assert(y@ == encode_utf8(b@));
    }
    if x.len() != y.len() {
        return false;
    }
    let mut i: usize = 0;
    while i < x.len()
        invariant
            x@ == encode_utf8(a@),
            y@ == encode_utf8(b@),
            x@.len() == y@.len(),
            i <= x@.len(),
            forall|k: int| 0 <= k < i ==> x@[k] == y@[k],
        decreases x@.len() - i,
    {
        if x[i] != y[i] {
            assert(x@[i as int] != y@[i as int]);
            return false;
        }
        i = i + 1;
    }
    assert(x@ =~= y@);
    true
}

impl TaraArchive {
    /// Creates an archive with no entries.
    pub fn new() -> (r: Self)
        ensures
            r@ == Seq::<(Seq<char>, Seq<u8>)>::empty(),
    {
        let r = Self { entries: Vec::new() };
        assert(r@ =~= Seq::<(Seq<char>, Seq<u8>)>::empty());
        r
    }

    /// The first entry, in order, whose name is `name`, if there is one.
    pub fn get_entry(&self, name: &str) -> (r: Option<&TaraEntry>)
        ensures
            r is None <==> forall|i: int| 0 <= i < self@.len() ==> self@[i].0 != name@,
            r matches Some(e) ==> exists|i: int|
                0 <= i < self.entries@.len() && *e == self.entries@[i] && e.name@ == name@
                    && forall|j: int| 0 <= j < i ==> self@[j].0 != name@,
    {
        let mut i: usize = 0;
        while i < self.entries.len()
            invariant
                i <= self.entries@.len(),
                forall|j: int| 0 <= j < i ==> self@[j].0 != name@,
            decreases self.entries@.len() - i,
        {
            if same_text(self.entries[i].name.as_str(), name) {
                assert(self@[i as int].0 == name@);
                return Some(&self.entries[i]);
            }
            i = i + 1;
        }
        None
    }

    /// Decodes the archive at the start of `bytes`; bytes after its last
    /// payload are left unread.
    pub fn read(bytes: &[u8]) -> (r: Result<TaraArchive, DecodeError>)
        ensures
            decoding(bytes@) == match r {
                Ok(a) => Ok(a@),
                Err(e) => Err(e),
            },
    {
        if bytes.len() < 4 {
            return Err(DecodeError::UnexpectedEnd);
        }
        let count = read_be_u32(slice_subrange(bytes, 0, 4));
        assert(bytes@.subrange(0, 4) =~= bytes@.take(4));
        let ghost records_start = bytes@.skip(4);
        let mut pos: usize = 4;
        let mut header: Vec<TaraHeaderEntry> = Vec::new();
        let mut i: u32 = 0;
        assert(records_view(header@) =~= seq![]);
        assert(bytes@.skip(4) =~= bytes@.skip(pos as int));
        while i < count
            invariant
                4 <= pos <= bytes@.len(),
                i <= count,
                records_start == bytes@.skip(4),
                bytes@.len() >= 4,
                count as nat == be32_value(bytes@.take(4)),
                parse_records(records_start, count as nat) == prepend_records(
                    records_view(header@),
                    parse_records(bytes@.skip(pos as int), (count - i) as nat),
                ),
            decreases count - i,
        {
            let ghost rest = bytes@.skip(pos as int);
            let avail = bytes.len() - pos;
            if avail < 2 {
                return Err(DecodeError::UnexpectedEnd);
            }
            let name_len = read_be_u16(slice_subrange(bytes, pos, pos + 2)) as usize;
            assert(bytes@.subrange(pos as int, pos + 2) =~= rest.take(2));
            if avail - 2 < name_len {
                return Err(DecodeError::UnexpectedEnd);
            }
            let name_bytes = slice_to_vec(slice_subrange(bytes, pos + 2, pos + 2 + name_len));
            assert(name_bytes@ =~= rest.subrange(2, 2 + name_len));
            let name = match string_from_utf8(name_bytes) {
                Some(s) => s,
                None => {
                    return Err(DecodeError::InvalidName);
                },
            };
            if avail - 2 - name_len < 4 {
                return Err(DecodeError::UnexpectedEnd);
            }
            let start = pos + 2 + name_len;
            let length = read_be_u32(slice_subrange(bytes, start, start + 4));
            assert(bytes@.subrange(start as int, start + 4) =~= rest.subrange(
                2 + name_len,
                2 + name_len + 4,
            ));
            let h = TaraHeaderEntry::new(name, length as usize);
            let ghost old_records = records_view(header@);
            header.push(h);
            pos = start + 4;
            i = i + 1;
            proof {
                assert(rest.skip(2 + name_len + 4) =~= bytes@.skip(pos as int));
                assert(records_view(header@) =~= old_records + seq![h@]);
                lemma_prepend_records_twice(
                    old_records,
                    seq![h@],
                    parse_records(bytes@.skip(pos as int), (count - i) as nat),
                );
            }
        }
        assert(parse_records(records_start, count as nat) == Ok::<_, DecodeError>(
            (records_view(header@), bytes@.skip(pos as int)),
        )) by {
            assert(records_view(header@) + seq![] =~= records_view(header@));
        }
        let ghost all_records = records_view(header@);
        let ghost payloads_start = bytes@.skip(pos as int);
        let mut entries: Vec<TaraEntry> = Vec::new();
        let mut j: usize = 0;
        assert(entries_view(entries@) =~= seq![]);
        assert(all_records.skip(0) =~= all_records);
        while j < header.len()
            invariant
                pos <= bytes@.len(),
                j <= header@.len(),
                all_records == records_view(header@),
                bytes@.len() >= 4,
                decoding(bytes@) == match parse_payloads(all_records, payloads_start) {
                    Err(e) => Err(e),
                    Ok((es, _)) => Ok(es),
                },
                parse_payloads(all_records, payloads_start) == prepend_entries(
                    entries_view(entries@),
                    parse_payloads(all_records.skip(j as int), bytes@.skip(pos as int)),
                ),
            decreases header@.len() - j,
        {
            let ghost rest = bytes@.skip(pos as int);
            let ghost tail = all_records.skip(j as int);
            let length = header[j].length;
            assert(tail[0] == header@[j as int]@);
            if bytes.len() - pos < length {
                return Err(DecodeError::UnexpectedEnd);
            }
            let data = slice_to_vec(slice_subrange(bytes, pos, pos + length));
            assert(data@ =~= rest.take(length as int));
            let e = TaraEntry::new(header[j].name.clone(), data);
            let ghost old_entries = entries_view(entries@);
            entries.push(e);
            pos = pos + length;
            j = j + 1;
            proof {
                assert(tail.drop_first() =~= all_records.skip(j as int));
                assert(rest.skip(length as int) =~= bytes@.skip(pos as int));
                assert(entries_view(entries@) =~= old_entries + seq![e@]);
                lemma_prepend_entries_twice(
                    old_entries,
                    seq![e@],
                    parse_payloads(all_records.skip(j as int), bytes@.skip(pos as int)),
                );
            }
        }
        let archive = TaraArchive { entries };
        assert(all_records.skip(j as int) =~= seq![]);
        assert(entries_view(archive.entries@) + seq![] =~= archive@);
        Ok(archive)
    }

    /// Appends the encoding of this archive to `out`: the entry count, the
    /// header records, then the payloads. Nothing is written when a length
    /// does not fit its field.
    pub fn write(&self, out: &mut Vec<u8>) -> (r: Result<(), EncodeError>)
        ensures
            r is Ok <==> fits_wire(self@),
            r is Ok ==> final(out)@ == old(out)@ + encoding(self@),
            r is Err ==> final(out)@ == old(out)@,
    {
        let n = self.entries.len();
        if n > 4294967295 {
            return Err(EncodeError::FieldOverflow);
        }
        let mut i: usize = 0;
        while i < n
            invariant
                n == self.entries@.len(),
                i <= n,
                forall|k: int| 0 <= k < i ==> #[trigger] entry_fits(self@[k]),
            decreases n - i,
        {
            let e = &self.entries[i];
            assert(self@[i as int] == e@);
            let name_len = e.name.as_str().as_bytes().len();
            assert(name_len == encode_utf8(e.name@).len());
            if name_len > 65535 || e.data.len() > 4294967295 {
                assert(!entry_fits(self@[i as int]));
                return Err(EncodeError::FieldOverflow);
            }
            assert(entry_fits(self@[i as int]));
            i = i + 1;
        }
        assert(fits_wire(self@));
        let ghost a = self@;
        let ghost start = out@;
        append_bytes(out, array_as_slice(&be_u32_bytes(n as u32)));
        assert(a.take(0) =~= seq![]);
        assert(header_block(a.take(0)) =~= seq![]);
        let mut i: usize = 0;
        while i < n
            invariant
                a == self@,
                n == a.len(),
                fits_wire(a),
                i <= n,
                out@ == start + be32_bytes(n as u32) + header_block(a.take(i as int)),
            decreases n - i,
        {
            let e = &self.entries[i];
            assert(a[i as int] == e@);
            assert(entry_fits(a[i as int]));
            let name = e.name.as_str().as_bytes();
            append_bytes(out, array_as_slice(&be_u16_bytes(name.len() as u16)));
            append_bytes(out, name);
            append_bytes(out, array_as_slice(&be_u32_bytes(e.data.len() as u32)));
            proof {
                lemma_header_block_step(a, i as int);
                assert(out@ =~= start + be32_bytes(n as u32) + header_block(a.take(i + 1)));
            }
            i = i + 1;
        }
        assert(a.take(n as int) =~= a);
        let ghost mid = out@;
        assert(payload_block(a.take(0)) =~= seq![]);
        let mut i: usize = 0;
        while i < n
            invariant
                a == self@,
                n == a.len(),
                i <= n,
                out@ == mid + payload_block(a.take(i as int)),
            decreases n - i,
        {
            let e = &self.entries[i];
            assert(a[i as int] == e@);
            append_bytes(out, e.data.as_slice());
            proof {
                lemma_payload_block_step(a, i as int);
                assert(out@ =~= mid + payload_block(a.take(i + 1)));
            }
            i = i + 1;
        }
        assert(out@ =~= start + encoding(a));
        Ok(())
    }

    /// Appends an entry with `name` and `data` after the present ones.
    pub fn add_entry(&mut self, name: String, data: Vec<u8>)
        ensures
            final(self)@ == old(self)@.push((name@, data@)),
    {
        self.entries.push(TaraEntry::new(name, data));
        assert(self@ =~= old(self)@.push((name@, data@)));
    }
}

impl Default for TaraArchive {
    /// An archive with no entries.
    fn default() -> (r: Self)
        ensures
            r@ == Seq::<(Seq<char>, Seq<u8>)>::empty(),
    {
        Self::new()
    }
}

} // verus!
