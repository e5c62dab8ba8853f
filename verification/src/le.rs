//! Little-endian integers inside byte sequences, as the boot formats lay them out.

use vstd::prelude::*;

verus! {

/// The value of the two bytes at `o`, least significant first.
pub open spec fn le16(b: Seq<u8>, o: int) -> int {
    b[o] + 256 * b[o + 1]
}

/// The value of the four bytes at `o`, least significant first.
pub open spec fn le32(b: Seq<u8>, o: int) -> int {
    b[o] + 256 * b[o + 1] + 65536 * b[o + 2] + 16777216 * b[o + 3]
}

/// The value of the eight bytes at `o`, least significant first.
pub open spec fn le64(b: Seq<u8>, o: int) -> int {
    le32(b, o) + 4294967296 * le32(b, o + 4)
}

/// The low byte of `v`.
pub open spec fn lo8(v: int) -> u8 {
    (v % 256) as u8
}

/// The four bytes that encode `v` little-endian.
pub open spec fn bytes32(v: u32) -> Seq<u8> {
    seq![lo8(v as int), lo8(v as int / 256), lo8(v as int / 65536), lo8(v as int / 16777216)]
}

/// The eight bytes that encode `v` little-endian.
pub open spec fn bytes64(v: u64) -> Seq<u8> {
    bytes32((v % 4294967296) as u32) + bytes32((v / 4294967296) as u32)
}

/// Reading back four bytes that encode `v` gives `v`.
pub proof fn lemma_le32_bytes32(v: u32)
    ensures
        le32(bytes32(v), 0) == v,
{
    let n = v as int;
    assert(bytes32(v)[0] == n % 256);
    assert(bytes32(v)[1] == (n / 256) % 256);
    assert(bytes32(v)[2] == (n / 65536) % 256);
    assert(bytes32(v)[3] == (n / 16777216) % 256);
    assert(n == n % 256 + 256 * ((n / 256) % 256) + 65536 * ((n / 65536) % 256) + 16777216 * (n / 16777216)) by (nonlinear_arith)
        requires 0 <= n;
    assert(n / 16777216 < 256) by (nonlinear_arith)
        requires 0 <= n < 4294967296;
}

/// `n` zero bytes.
pub open spec fn zeros(n: int) -> Seq<u8> {
    Seq::new(n as nat, |i: int| 0u8)
}

/// `n` rounded up to a multiple of 8.
pub open spec fn align8(n: int) -> int {
    ((n + 7) / 8) * 8
}

/// `s` padded with zeros to a multiple of 8 bytes.
pub open spec fn pad8(s: Seq<u8>) -> Seq<u8> {
    s + zeros(align8(s.len() as int) - s.len())
}

pub proof fn lemma_align8(n: int)
    requires
        0 <= n,
    ensures
        n <= align8(n) < n + 8,
        align8(n) % 8 == 0,
        n % 8 == 0 ==> align8(n) == n,
        n <= 8192 ==> align8(n) <= 8192,
        n <= 8184 ==> align8(n) <= 8184,
{
    assert(n <= align8(n) < n + 8 && align8(n) % 8 == 0) by (nonlinear_arith)
        requires 0 <= n;
    if n % 8 == 0 {
        assert(align8(n) == n) by (nonlinear_arith)
            requires n % 8 == 0, 0 <= n;
    }
    if n <= 8192 {
        assert(align8(n) <= 8192) by (nonlinear_arith)
            requires n <= 8192, 0 <= n;
    }
    if n <= 8184 {
        assert(align8(n) <= 8184) by (nonlinear_arith)
            requires n <= 8184, 0 <= n;
    }
}

/// Append `v`, little-endian.
pub fn push_u32(out: &mut Vec<u8>, v: u32)
    ensures
        final(out)@ == old(out)@ + bytes32(v),
{
    out.push((v % 256) as u8);
    out.push(((v / 256) % 256) as u8);
    out.push(((v / 65536) % 256) as u8);
    out.push(((v / 16777216) % 256) as u8);
    assert(final(out)@ =~= old(out)@ + bytes32(v));
}

/// Append `v`, little-endian.
pub fn push_u64(out: &mut Vec<u8>, v: u64)
    ensures
        final(out)@ == old(out)@ + bytes64(v),
{
    push_u32(out, (v % 4294967296) as u32);
    push_u32(out, (v / 4294967296) as u32);
    assert(final(out)@ =~= old(out)@ + bytes64(v));
}

/// Append `n` zero bytes.
pub fn push_zeros(out: &mut Vec<u8>, n: usize)
    ensures
        final(out)@ == old(out)@ + zeros(n as int),
{
    let mut i: usize = 0;
    while i < n
        invariant
            i <= n,
            out@ == old(out)@ + zeros(i as int),
        decreases n - i,
    {
        out.push(0);
        i = i + 1;
        assert(out@ =~= old(out)@ + zeros(i as int));
    }
}

/// Pad with zeros to a multiple of 8 bytes.
pub fn push_pad8(out: &mut Vec<u8>)
    ensures
        final(out)@ == pad8(old(out)@),
{
    let len = out.len();
    let r = len % 8;
    proof { lemma_align8(len as int); }
    if r != 0 {
        assert(align8(len as int) - len == 8 - r) by (nonlinear_arith)
            requires r == len % 8, r != 0;
        push_zeros(out, 8 - r);
    } else {
        assert(old(out)@ + zeros(0) =~= old(out)@);
    }
}

} // verus!
