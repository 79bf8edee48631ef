//! Big-endian integers and alignment padding, the building blocks of the
//! archive's binary form.

use vstd::prelude::*;

verus! {

/// The eight bytes of `x`, most significant first.
pub open spec fn u64_be_bytes(x: u64) -> Seq<u8> {
    seq![
        (x >> 56u64) as u8,
        (x >> 48u64) as u8,
        (x >> 40u64) as u8,
        (x >> 32u64) as u8,
        (x >> 24u64) as u8,
        (x >> 16u64) as u8,
        (x >> 8u64) as u8,
        x as u8,
    ]
}

/// The number whose big-endian form is the first eight bytes of `b`.
pub open spec fn u64_from_be(b: Seq<u8>) -> u64 {
    ((b[0] as u64) << 56u64) | ((b[1] as u64) << 48u64) | ((b[2] as u64) << 40u64) | ((
    b[3] as u64) << 32u64) | ((b[4] as u64) << 24u64) | ((b[5] as u64) << 16u64) | ((
    b[6] as u64) << 8u64) | (b[7] as u64)
}

/// The four bytes of `x`, most significant first.
pub open spec fn u32_be_bytes(x: u32) -> Seq<u8> {
    seq![(x >> 24u32) as u8, (x >> 16u32) as u8, (x >> 8u32) as u8, x as u8]
}

/// The number whose big-endian form is the first four bytes of `b`.
pub open spec fn u32_from_be(b: Seq<u8>) -> u32 {
    ((b[0] as u32) << 24u32) | ((b[1] as u32) << 16u32) | ((b[2] as u32) << 8u32) | (b[3] as u32)
}

/// How many bytes take `pos` up to the next multiple of `align`.
pub open spec fn padding(pos: int, align: int) -> int {
    if pos % align == 0 {
        0
    } else {
        align - pos % align
    }
}

/// `n` zero bytes.
pub open spec fn zeros(n: int) -> Seq<u8> {
    Seq::new(n as nat, |i: int| 0u8)
}

/// Reading back the big-endian form of a `u64` gives the number.
pub proof fn lemma_u64_be_roundtrip(x: u64)
    ensures
        u64_from_be(u64_be_bytes(x)) == x,
{
    let b = u64_be_bytes(x);
    assert(((((x >> 56u64) as u8) as u64) << 56u64) | ((((x >> 48u64) as u8) as u64) << 48u64)
        | ((((x >> 40u64) as u8) as u64) << 40u64) | ((((x >> 32u64) as u8) as u64) << 32u64)
        | ((((x >> 24u64) as u8) as u64) << 24u64) | ((((x >> 16u64) as u8) as u64) << 16u64)
        | ((((x >> 8u64) as u8) as u64) << 8u64) | ((x as u8) as u64) == x) by (bit_vector);
}

/// Reading back the big-endian form of a `u32` gives the number.
pub proof fn lemma_u32_be_roundtrip(x: u32)
    ensures
        u32_from_be(u32_be_bytes(x)) == x,
{
    assert(((((x >> 24u32) as u8) as u32) << 24u32) | ((((x >> 16u32) as u8) as u32) << 16u32)
        | ((((x >> 8u32) as u8) as u32) << 8u32) | ((x as u8) as u32) == x) by (bit_vector);
}

/// The padding that aligns `pos`, and the aligned position, for positions that fit a `usize`.
pub(crate) fn padding_for(pos: usize, align: usize) -> (pad: usize)
    requires
        align > 0,
    ensures
        pad == padding(pos as int, align as int),
        pad < align,
        (pos + pad) % (align as int) == 0,
{
    let rem = pos % align;
    if rem == 0 {
        0
    } else {
        assert(pos as int == (pos as int / align as int) * align as int + rem) by (nonlinear_arith)
            requires
                rem == pos % align,
                align > 0,
        ;
        assert((pos + (align - rem)) % (align as int) == 0) by (nonlinear_arith)
            requires
                pos as int == (pos as int / align as int) * align as int + rem,
                align > 0,
        ;
        align - rem
    }
}

/// Appends `n` zero bytes.
pub(crate) fn push_zeros(out: &mut Vec<u8>, n: usize)
    ensures
        final(out)@ == old(out)@ + zeros(n as int),
{
    let ghost start = out@;
    let mut i: usize = 0;
    while i < n
        invariant
            i <= n,
            out@ == start + zeros(i as int),
        decreases n - i,
    {
        out.push(0u8);
        i = i + 1;
        assert(out@ =~= start + zeros(i as int));
    }
}

/// Appends the big-endian form of `x`.
pub(crate) fn push_u64_be(out: &mut Vec<u8>, x: u64)
    ensures
        final(out)@ == old(out)@ + u64_be_bytes(x),
{
    out.push((x >> 56u64) as u8);
    out.push((x >> 48u64) as u8);
    out.push((x >> 40u64) as u8);
    out.push((x >> 32u64) as u8);
    out.push((x >> 24u64) as u8);
    out.push((x >> 16u64) as u8);
    out.push((x >> 8u64) as u8);
    out.push(x as u8);
    assert(final(out)@ =~= old(out)@ + u64_be_bytes(x));
}

/// Appends the big-endian form of `x`.
pub(crate) fn push_u32_be(out: &mut Vec<u8>, x: u32)
    ensures
        final(out)@ == old(out)@ + u32_be_bytes(x),
{
    out.push((x >> 24u32) as u8);
    out.push((x >> 16u32) as u8);
    out.push((x >> 8u32) as u8);
    out.push(x as u8);
    assert(final(out)@ =~= old(out)@ + u32_be_bytes(x));
}

/// The `u64` stored big-endian at `bytes[pos..pos + 8]`.
pub(crate) fn read_u64_be(bytes: &[u8], pos: usize) -> (x: u64)
    requires
        pos + 8 <= bytes@.len(),
    ensures
        x == u64_from_be(bytes@.subrange(pos as int, pos + 8)),
{
    ((bytes[pos] as u64) << 56u64) | ((bytes[pos + 1] as u64) << 48u64) | ((bytes[pos + 2] as u64)
        << 40u64) | ((bytes[pos + 3] as u64) << 32u64) | ((bytes[pos + 4] as u64) << 24u64) | ((
    bytes[pos + 5] as u64) << 16u64) | ((bytes[pos + 6] as u64) << 8u64) | (bytes[pos + 7] as u64)
}

/// The `u32` stored big-endian at `bytes[pos..pos + 4]`.
pub(crate) fn read_u32_be(bytes: &[u8], pos: usize) -> (x: u32)
    requires
        pos + 4 <= bytes@.len(),
    ensures
        x == u32_from_be(bytes@.subrange(pos as int, pos + 4)),
{
    ((bytes[pos] as u32) << 24u32) | ((bytes[pos + 1] as u32) << 16u32) | ((bytes[pos + 2] as u32)
        << 8u32) | (bytes[pos + 3] as u32)
}

} // verus!
