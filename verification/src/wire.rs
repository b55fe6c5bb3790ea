//! Big-endian encodings used by the archive format: 16-bit, 32-bit and
//! 40-bit unsigned fields, written and read as plain bytes.

use vstd::prelude::*;

verus! {

/// The bytes of `v` in big-endian order, most significant first.
pub open spec fn be16_bytes(v: u16) -> Seq<u8> {
    seq![(v as int / 0x100) as u8, (v as int % 0x100) as u8]
}

/// The value read from two big-endian bytes.
pub open spec fn be16_val(b: Seq<u8>) -> int
    recommends
        b.len() == 2,
{
    b[0] * 0x100 + b[1]
}

/// The bytes of `v` in big-endian order, most significant first.
pub open spec fn be32_bytes(v: u32) -> Seq<u8> {
    seq![
        (v as int / 0x100_0000) as u8,
        (v as int / 0x1_0000 % 0x100) as u8,
        (v as int / 0x100 % 0x100) as u8,
        (v as int % 0x100) as u8,
    ]
}

/// The value read from four big-endian bytes.
pub open spec fn be32_val(b: Seq<u8>) -> int
    recommends
        b.len() == 4,
{
    b[0] * 0x100_0000 + b[1] * 0x1_0000 + b[2] * 0x100 + b[3]
}

/// The bytes of a 40-bit value: one high byte, then the low 32 bits
/// big-endian.
pub open spec fn be40_bytes(v: u64) -> Seq<u8>
    recommends
        v < 0x100_0000_0000,
{
    seq![(v as int / 0x1_0000_0000) as u8] + be32_bytes((v as int % 0x1_0000_0000) as u32)
}

/// The value read from five bytes: one high byte, then 32 bits big-endian.
pub open spec fn be40_val(b: Seq<u8>) -> int
    recommends
        b.len() == 5,
{
    b[0] * 0x1_0000_0000 + be32_val(b.skip(1))
}

pub proof fn lemma_be16_roundtrip(v: u16)
    ensures
        be16_val(be16_bytes(v)) == v,
        be16_bytes(v).len() == 2,
{
    assert(v as int / 0x100 < 0x100);
    assert((v as int / 0x100) as u8 * 0x100 + (v as int % 0x100) as u8 == v) by (nonlinear_arith)
        requires
            0 <= v < 0x1_0000,
    ;
}

pub proof fn lemma_be16_val_range(b: Seq<u8>)
    requires
        b.len() == 2,
    ensures
        0 <= be16_val(b) < 0x1_0000,
{
}

pub proof fn lemma_be32_roundtrip(v: u32)
    ensures
        be32_val(be32_bytes(v)) == v,
        be32_bytes(v).len() == 4,
{
    assert(v as int / 0x100_0000 < 0x100);
    assert((v as int / 0x100_0000) as u8 * 0x100_0000 + (v as int / 0x1_0000 % 0x100) as u8
        * 0x1_0000 + (v as int / 0x100 % 0x100) as u8 * 0x100 + (v as int % 0x100) as u8 == v)
        by (nonlinear_arith)
        requires
            0 <= v < 0x1_0000_0000,
    ;
}

pub proof fn lemma_be32_val_range(b: Seq<u8>)
    requires
        b.len() == 4,
    ensures
        0 <= be32_val(b) < 0x1_0000_0000,
{
}

pub proof fn lemma_be40_roundtrip(v: u64)
    requires
        v < 0x100_0000_0000,
    ensures
        be40_val(be40_bytes(v)) == v,
        be40_bytes(v).len() == 5,
{
    let hi = v as int / 0x1_0000_0000;
    let lo = (v as int % 0x1_0000_0000) as u32;
    assert(hi < 0x100);
    lemma_be32_roundtrip(lo);
    assert(be40_bytes(v).skip(1) =~= be32_bytes(lo));
    assert(hi as u8 * 0x1_0000_0000 + lo == v) by (nonlinear_arith)
        requires
            0 <= v < 0x100_0000_0000,
            hi == v as int / 0x1_0000_0000,
            lo == (v as int % 0x1_0000_0000) as u32,
    ;
}

pub proof fn lemma_be40_val_range(b: Seq<u8>)
    requires
        b.len() == 5,
    ensures
        0 <= be40_val(b) < 0x100_0000_0000,
{
    lemma_be32_val_range(b.skip(1));
}

/// Appends the two big-endian bytes of `v` to `out`.
pub fn push_be16(out: &mut Vec<u8>, v: u16)
    ensures
        final(out)@ == old(out)@ + be16_bytes(v),
{
    out.push((v / 0x100) as u8);
    out.push((v % 0x100) as u8);
    assert(final(out)@ =~= old(out)@ + be16_bytes(v));
}

/// Appends the four big-endian bytes of `v` to `out`.
pub fn push_be32(out: &mut Vec<u8>, v: u32)
    ensures
        final(out)@ == old(out)@ + be32_bytes(v),
{
    out.push((v / 0x100_0000) as u8);
    out.push((v / 0x1_0000 % 0x100) as u8);
    out.push((v / 0x100 % 0x100) as u8);
    out.push((v % 0x100) as u8);
    assert(final(out)@ =~= old(out)@ + be32_bytes(v));
}

/// Appends the five bytes of the 40-bit value `v` to `out`.
pub fn push_be40(out: &mut Vec<u8>, v: u64)
    requires
        v < 0x100_0000_0000,
    ensures
        final(out)@ == old(out)@ + be40_bytes(v),
{
    out.push((v / 0x1_0000_0000) as u8);
    push_be32(out, (v % 0x1_0000_0000) as u32);
    assert(final(out)@ =~= old(out)@ + be40_bytes(v));
}

/// Reads a big-endian 16-bit value from `b` at `pos`.
pub fn read_be16(b: &[u8], pos: usize) -> (v: u16)
    requires
        pos + 2 <= b@.len(),
    ensures
        v == be16_val(b@.subrange(pos as int, pos + 2)),
{
    let v: u16 = (b[pos] as u16) * 0x100 + (b[pos + 1] as u16);
    proof {
        let s = b@.subrange(pos as int, pos + 2);
        assert(s[0] == b@[pos as int] && s[1] == b@[pos + 1]);
    }
    v
}

/// Reads a big-endian 32-bit value from `b` at `pos`.
pub fn read_be32(b: &[u8], pos: usize) -> (v: u32)
    requires
        pos + 4 <= b@.len(),
    ensures
        v == be32_val(b@.subrange(pos as int, pos + 4)),
{
    let v: u32 = (b[pos] as u32) * 0x100_0000 + (b[pos + 1] as u32) * 0x1_0000 + (b[pos + 2]
        as u32) * 0x100 + (b[pos + 3] as u32);
    proof {
        let s = b@.subrange(pos as int, pos + 4);
        assert(s[0] == b@[pos as int] && s[1] == b@[pos + 1]);
        assert(s[2] == b@[pos + 2] && s[3] == b@[pos + 3]);
    }
    v
}

/// Reads a 40-bit value (one high byte, then 32 bits big-endian) from `b` at
/// `pos`.
pub fn read_be40(b: &[u8], pos: usize) -> (v: u64)
    requires
        pos + 5 <= b@.len(),
    ensures
        v == be40_val(b@.subrange(pos as int, pos + 5)),
        v < 0x100_0000_0000,
{
    let hi = b[pos];
    let lo = read_be32(b, pos + 1);
    let v: u64 = (hi as u64) * 0x1_0000_0000 + (lo as u64);
    proof {
        let s = b@.subrange(pos as int, pos + 5);
        assert(s[0] == b@[pos as int]);
        assert(s.skip(1) =~= b@.subrange(pos + 1, pos + 5));
        lemma_be32_val_range(s.skip(1));
    }
    v
}

/// True when the `n` bytes of `b` starting at `pos` equal `expect`.
pub fn bytes_eq_at(b: &[u8], pos: usize, expect: &[u8]) -> (r: bool)
    requires
        pos + expect@.len() <= b@.len(),
    ensures
        r == (b@.subrange(pos as int, pos + expect@.len()) == expect@),
{
    let n = expect.len();
    let blen = b.len();
    let mut i: usize = 0;
    while i < n
        invariant
            0 <= i <= n,
            n == expect@.len(),
            blen == b@.len(),
            pos + n <= blen,
            forall|j: int| 0 <= j < i ==> b@[pos + j] == expect@[j],
        decreases n - i,
    {
        if b[pos + i] != expect[i] {
            assert(b@.subrange(pos as int, pos + expect@.len())[i as int] != expect@[i as int]);
            return false;
        }
        i = i + 1;
    }
    assert(b@.subrange(pos as int, pos + expect@.len()) =~= expect@);
    true
}

/// True when `a` and `b` hold the same bytes.
pub fn bytes_eq(a: &[u8], b: &[u8]) -> (r: bool)
    ensures
        r == (a@ == b@),
{
    if a.len() != b.len() {
        return false;
    }
    let n = a.len();
    let mut i: usize = 0;
    while i < n
        invariant
            0 <= i <= n,
            n == a@.len() == b@.len(),
            forall|j: int| 0 <= j < i ==> a@[j] == b@[j],
        decreases n - i,
    {
        if a[i] != b[i] {
            return false;
        }
        i = i + 1;
    }
    assert(a@ =~= b@);
    true
}

} // verus!
