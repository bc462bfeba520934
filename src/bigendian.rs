use byteorder::{BigEndian, ByteOrder};
use vstd::prelude::*;

verus! {

/// The value of two bytes read most significant first.
pub open spec fn be16_value(b: Seq<u8>) -> nat {
    b[0] as nat * 256 + b[1] as nat
}

/// The value of four bytes read most significant first.
pub open spec fn be32_value(b: Seq<u8>) -> nat {
    b[0] as nat * 16777216 + b[1] as nat * 65536 + b[2] as nat * 256 + b[3] as nat
}

/// The two bytes of `n`, most significant first.
pub open spec fn be16_bytes(n: u16) -> Seq<u8> {
    seq![(n / 256) as u8, (n % 256) as u8]
}

/// The four bytes of `n`, most significant first.
pub open spec fn be32_bytes(n: u32) -> Seq<u8> {
    seq![
        (n / 16777216) as u8,
        (n / 65536 % 256) as u8,
        (n / 256 % 256) as u8,
        (n % 256) as u8,
    ]
}

/// Reading back the bytes of a 16-bit value gives the value.
pub proof fn lemma_be16_value_of_bytes(n: u16)
    ensures
        be16_bytes(n).len() == 2,
        be16_value(be16_bytes(n)) == n as nat,
{
    let b = be16_bytes(n);
    assert(b[0] as nat * 256 + b[1] as nat == n as nat) by (nonlinear_arith)
        requires
            b[0] as nat == n as nat / 256,
            b[1] as nat == n as nat % 256,
    ;
}

/// Reading back the bytes of a 32-bit value gives the value.
pub proof fn lemma_be32_value_of_bytes(n: u32)
    ensures
        be32_bytes(n).len() == 4,
        be32_value(be32_bytes(n)) == n as nat,
{
    let b = be32_bytes(n);
    let m = n as nat;
    assert(b[0] as nat * 16777216 + b[1] as nat * 65536 + b[2] as nat * 256 + b[3] as nat == m)
        by (nonlinear_arith)
        requires
            m < 4294967296,
            b[0] as nat == m / 16777216,
            b[1] as nat == m / 65536 % 256,
            b[2] as nat == m / 256 % 256,
            b[3] as nat == m % 256,
    ;
}

/// Two bytes are the bytes of their own value.
pub proof fn lemma_be16_bytes_of_value(b: Seq<u8>)
    requires
        b.len() == 2,
    ensures
        be16_value(b) < 65536,
        be16_bytes(be16_value(b) as u16) == b,
{
    let v = be16_value(b);
    let x = b[0] as nat;
    let y = b[1] as nat;
    assert(v / 256 == x && v % 256 == y) by (nonlinear_arith)
        requires
            v == x * 256 + y,
            x < 256,
            y < 256,
    ;
    assert(be16_bytes(v as u16) =~= b);
}

/// Four bytes are the bytes of their own value.
pub proof fn lemma_be32_bytes_of_value(b: Seq<u8>)
    requires
        b.len() == 4,
    ensures
        be32_value(b) < 4294967296,
        be32_bytes(be32_value(b) as u32) == b,
{
    let v = be32_value(b);
    let (w, x, y, z) = (b[0] as nat, b[1] as nat, b[2] as nat, b[3] as nat);
    assert(v < 4294967296 && v / 16777216 == w && v / 65536 % 256 == x && v / 256 % 256 == y
        && v % 256 == z) by (nonlinear_arith)
        requires
            v == w * 16777216 + x * 65536 + y * 256 + z,
            w < 256,
            x < 256,
            y < 256,
            z < 256,
    ;
    assert(be32_bytes(v as u32) =~= b);
}

/// Relies on byteorder's `BigEndian::read_u16`: the first two bytes of
/// `buf`, most significant first (it panics on a shorter buffer).
#[verifier::external_body]
pub(crate) fn read_be_u16(buf: &[u8]) -> (r: u16)
    requires
        buf@.len() >= 2,
    ensures
        r as nat == be16_value(buf@),
{
    BigEndian::read_u16(buf)
}

/// Relies on byteorder's `BigEndian::read_u32`: the first four bytes of
/// `buf`, most significant first (it panics on a shorter buffer).
#[verifier::external_body]
pub(crate) fn read_be_u32(buf: &[u8]) -> (r: u32)
    requires
        buf@.len() >= 4,
    ensures
        r as nat == be32_value(buf@),
{
    BigEndian::read_u32(buf)
}

/// Relies on byteorder's `BigEndian::write_u16`: stores `n` in the two
/// bytes of the buffer, most significant first.
#[verifier::external_body]
pub(crate) fn be_u16_bytes(n: u16) -> (r: [u8; 2])
    ensures
        r@ == be16_bytes(n),
{
    let mut buf = [0u8; 2];
    BigEndian::write_u16(&mut buf, n);
    buf
}

/// Relies on byteorder's `BigEndian::write_u32`: stores `n` in the four
/// bytes of the buffer, most significant first.
#[verifier::external_body]
pub(crate) fn be_u32_bytes(n: u32) -> (r: [u8; 4])
    ensures
        r@ == be32_bytes(n),
{
    let mut buf = [0u8; 4];
    BigEndian::write_u32(&mut buf, n);
    buf
}

} // verus!
