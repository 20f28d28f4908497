//! Byte order of a file, and the 16- and 32-bit integer codecs that depend on it.

use byteorder::{BigEndian, ByteOrder, LittleEndian};
use vstd::prelude::*;

verus! {

/// The byte order of the multi-byte integers of a file.
#[derive(Clone, Copy, Debug, PartialEq, Eq, Structural)]
pub enum Endianness {
    Little,
    Big,
}

/// The value of a 16-bit integer stored in the first two bytes of `b`.
pub open spec fn u16_from_bytes(e: Endianness, b: Seq<u8>) -> u16
    recommends
        b.len() >= 2,
{
    match e {
        Endianness::Little => (b[0] as int + 256 * b[1] as int) as u16,
        Endianness::Big => (b[1] as int + 256 * b[0] as int) as u16,
    }
}

/// The value of a 32-bit integer stored in the first four bytes of `b`.
pub open spec fn u32_from_bytes(e: Endianness, b: Seq<u8>) -> u32
    recommends
        b.len() >= 4,
{
    match e {
        Endianness::Little => (b[0] as int + 256 * b[1] as int + 65536 * b[2] as int + 16777216
            * b[3] as int) as u32,
        Endianness::Big => (b[3] as int + 256 * b[2] as int + 65536 * b[1] as int + 16777216
            * b[0] as int) as u32,
    }
}

/// The two bytes that store `n`.
pub open spec fn u16_to_bytes(e: Endianness, n: u16) -> Seq<u8> {
    match e {
        Endianness::Little => seq![(n % 256) as u8, (n / 256) as u8],
        Endianness::Big => seq![(n / 256) as u8, (n % 256) as u8],
    }
}

/// The four bytes that store `n`.
pub open spec fn u32_to_bytes(e: Endianness, n: u32) -> Seq<u8> {
    match e {
        Endianness::Little => seq![
            (n % 256) as u8,
            ((n / 256) % 256) as u8,
            ((n / 65536) % 256) as u8,
            (n / 16777216) as u8,
        ],
        Endianness::Big => seq![
            (n / 16777216) as u8,
            ((n / 65536) % 256) as u8,
            ((n / 256) % 256) as u8,
            (n % 256) as u8,
        ],
    }
}

/// `n` units of `k` bytes each laid end to end, unit `u` being `f(u)`.
pub open spec fn flat(k: int, n: int, f: spec_fn(int) -> Seq<u8>) -> Seq<u8> {
    Seq::new((k * n) as nat, |j: int| f(j / k)[j % k])
}

/// Adding one unit at the end of a flat sequence.
pub proof fn lemma_flat_push(k: int, n: int, f: spec_fn(int) -> Seq<u8>)
    requires
        k > 0,
        n >= 0,
        f(n).len() == k,
    ensures
        flat(k, n + 1, f) =~= flat(k, n, f) + f(n),
{
    assert(k * (n + 1) == k * n + k) by (nonlinear_arith);
    assert(k * n >= 0) by (nonlinear_arith)
        requires
            k > 0,
            n >= 0,
    ;
    assert forall|j: int| k * n <= j < k * n + k implies #[trigger] (j / k) == n && j % k == j
        - k * n by {
        assert(j / k == n && j % k == j - k * n) by (nonlinear_arith)
            requires
                k > 0,
                k * n <= j < k * n + k,
        ;
    }
    assert forall|j: int| 0 <= j < k * n implies #[trigger] (j / k) < n && 0 <= j / k && 0 <= j % k < k by {
        assert(j / k < n && 0 <= j / k && 0 <= j % k < k) by (nonlinear_arith)
            requires
                k > 0,
                0 <= j < k * n,
        ;
    }
}

/// Unit `i` of a flat sequence.
pub proof fn lemma_flat_unit(k: int, n: int, f: spec_fn(int) -> Seq<u8>, i: int)
    requires
        k > 0,
        0 <= i < n,
        f(i).len() == k,
    ensures
        flat(k, n, f).len() == k * n,
        k * i + k <= k * n,
        flat(k, n, f).subrange(k * i, k * i + k) =~= f(i),
{
    assert(k * i + k <= k * n && k * n >= 0) by (nonlinear_arith)
        requires
            k > 0,
            0 <= i < n,
    ;
    let s = flat(k, n, f).subrange(k * i, k * i + k);
    assert forall|j: int| 0 <= j < k implies #[trigger] s[j] == f(i)[j] by {
        assert((k * i + j) / k == i && (k * i + j) % k == j) by (nonlinear_arith)
            requires
                k > 0,
                0 <= j < k,
        ;
    }
}

/// Reading back the bytes that store a 16-bit integer gives the integer.
pub proof fn lemma_u16_round_trip(e: Endianness, n: u16)
    ensures
        u16_to_bytes(e, n).len() == 2,
        u16_from_bytes(e, u16_to_bytes(e, n)) == n,
{
}

/// Reading back the bytes that store a 32-bit integer gives the integer.
pub proof fn lemma_u32_round_trip(e: Endianness, n: u32)
    ensures
        u32_to_bytes(e, n).len() == 4,
        u32_from_bytes(e, u32_to_bytes(e, n)) == n,
{
}

/// The two byte orders store each integer in the same bytes, in reverse order.
pub proof fn lemma_endian_reversal(a: u16, b: u32)
    ensures
        u16_to_bytes(Endianness::Big, a) == u16_to_bytes(Endianness::Little, a).reverse(),
        u32_to_bytes(Endianness::Big, b) == u32_to_bytes(Endianness::Little, b).reverse(),
{
    assert(u16_to_bytes(Endianness::Big, a) =~= u16_to_bytes(Endianness::Little, a).reverse());
    assert(u32_to_bytes(Endianness::Big, b) =~= u32_to_bytes(Endianness::Little, b).reverse());
}

/// Relies on byteorder's `LittleEndian::read_u16`: the first two bytes, least significant first.
#[verifier::external_body]
fn le_read_u16(buf: &[u8]) -> (r: u16)
    requires
        buf@.len() >= 2,
    ensures
        r == u16_from_bytes(Endianness::Little, buf@),
{
    LittleEndian::read_u16(buf)
}

/// Relies on byteorder's `BigEndian::read_u16`: the first two bytes, most significant first.
#[verifier::external_body]
fn be_read_u16(buf: &[u8]) -> (r: u16)
    requires
        buf@.len() >= 2,
    ensures
        r == u16_from_bytes(Endianness::Big, buf@),
{
    BigEndian::read_u16(buf)
}

/// Relies on byteorder's `LittleEndian::read_u32`: the first four bytes, least significant first.
#[verifier::external_body]
fn le_read_u32(buf: &[u8]) -> (r: u32)
    requires
        buf@.len() >= 4,
    ensures
        r == u32_from_bytes(Endianness::Little, buf@),
{
    LittleEndian::read_u32(buf)
}

/// Relies on byteorder's `BigEndian::read_u32`: the first four bytes, most significant first.
#[verifier::external_body]
fn be_read_u32(buf: &[u8]) -> (r: u32)
    requires
        buf@.len() >= 4,
    ensures
        r == u32_from_bytes(Endianness::Big, buf@),
{
    BigEndian::read_u32(buf)
}

/// Relies on byteorder's `LittleEndian::write_u16`: fills a two-byte buffer, least
/// significant byte first.
#[verifier::external_body]
fn le_write_u16(n: u16) -> (r: [u8; 2])
    ensures
        r@ == u16_to_bytes(Endianness::Little, n),
{
    let mut buf = [0u8; 2];
    LittleEndian::write_u16(&mut buf, n);
    buf
}

/// Relies on byteorder's `BigEndian::write_u16`: fills a two-byte buffer, most significant
/// byte first.
#[verifier::external_body]
fn be_write_u16(n: u16) -> (r: [u8; 2])
    ensures
        r@ == u16_to_bytes(Endianness::Big, n),
{
    let mut buf = [0u8; 2];
    BigEndian::write_u16(&mut buf, n);
    buf
}

/// Relies on byteorder's `LittleEndian::write_u32`: fills a four-byte buffer, least
/// significant byte first.
#[verifier::external_body]
fn le_write_u32(n: u32) -> (r: [u8; 4])
    ensures
        r@ == u32_to_bytes(Endianness::Little, n),
{
    let mut buf = [0u8; 4];
    LittleEndian::write_u32(&mut buf, n);
    buf
}

/// Relies on byteorder's `BigEndian::write_u32`: fills a four-byte buffer, most significant
/// byte first.
#[verifier::external_body]
fn be_write_u32(n: u32) -> (r: [u8; 4])
    ensures
        r@ == u32_to_bytes(Endianness::Big, n),
{
    let mut buf = [0u8; 4];
    BigEndian::write_u32(&mut buf, n);
    buf
}

impl Endianness {
    /// Decodes the 16-bit integer stored in the first two bytes of `buf`.
    pub fn read_u16(self, buf: &[u8]) -> (r: u16)
        requires
            buf@.len() >= 2,
        ensures
            r == u16_from_bytes(self, buf@),
    {
        match self {
            Endianness::Little => le_read_u16(buf),
            Endianness::Big => be_read_u16(buf),
        }
    }

    /// Decodes the 32-bit integer stored in the first four bytes of `buf`.
    pub fn read_u32(self, buf: &[u8]) -> (r: u32)
        requires
            buf@.len() >= 4,
        ensures
            r == u32_from_bytes(self, buf@),
    {
        match self {
            Endianness::Little => le_read_u32(buf),
            Endianness::Big => be_read_u32(buf),
        }
    }

    /// The two bytes that store `n` in this byte order.
    pub fn u16_bytes(self, n: u16) -> (r: [u8; 2])
        ensures
            r@ == u16_to_bytes(self, n),
    {
        match self {
            Endianness::Little => le_write_u16(n),
            Endianness::Big => be_write_u16(n),
        }
    }

    /// The four bytes that store `n` in this byte order.
    pub fn u32_bytes(self, n: u32) -> (r: [u8; 4])
        ensures
            r@ == u32_to_bytes(self, n),
    {
        match self {
            Endianness::Little => le_write_u32(n),
            Endianness::Big => be_write_u32(n),
        }
    }

    /// Whether this is the little-endian order.
    pub fn is_little(self) -> (r: bool)
        ensures
            r == (self == Endianness::Little),
    {
        match self {
            Endianness::Little => true,
            Endianness::Big => false,
        }
    }
}

} // verus!
