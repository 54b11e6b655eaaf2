//! Fixed-width big-endian integers on the wire.
use vstd::prelude::*;

verus! {

/// The four bytes of `n`, most significant first.
pub open spec fn be32(n: u32) -> Seq<u8> {
    seq![(n >> 24u32) as u8, (n >> 16u32) as u8, (n >> 8u32) as u8, n as u8]
}

/// The eight bytes of `n`, most significant first.
pub open spec fn be64(n: u64) -> Seq<u8> {
    seq![
        (n >> 56u64) as u8,
        (n >> 48u64) as u8,
        (n >> 40u64) as u8,
        (n >> 32u64) as u8,
        (n >> 24u64) as u8,
        (n >> 16u64) as u8,
        (n >> 8u64) as u8,
        n as u8,
    ]
}

proof fn lemma_be32_bits(n: u32, a: u8, b: u8, c: u8, d: u8)
    by (bit_vector)
    requires
        n == ((a as u32) << 24u32) | ((b as u32) << 16u32) | ((c as u32) << 8u32) | (d as u32),
    ensures
        (n >> 24u32) as u8 == a,
        (n >> 16u32) as u8 == b,
        (n >> 8u32) as u8 == c,
        n as u8 == d,
{
}

proof fn lemma_be32_join(n: u32)
    by (bit_vector)
    ensures
        n == ((((n >> 24u32) as u8) as u32) << 24u32) | ((((n >> 16u32) as u8) as u32) << 16u32)
            | ((((n >> 8u32) as u8) as u32) << 8u32) | ((n as u8) as u32),
{
}

proof fn lemma_be64_bits(n: u64, b0: u8, b1: u8, b2: u8, b3: u8, b4: u8, b5: u8, b6: u8, b7: u8)
    by (bit_vector)
    requires
        n == ((b0 as u64) << 56u64) | ((b1 as u64) << 48u64) | ((b2 as u64) << 40u64) | ((
        b3 as u64) << 32u64) | ((b4 as u64) << 24u64) | ((b5 as u64) << 16u64) | ((b6 as u64)
            << 8u64) | (b7 as u64),
    ensures
        (n >> 56u64) as u8 == b0,
        (n >> 48u64) as u8 == b1,
        (n >> 40u64) as u8 == b2,
        (n >> 32u64) as u8 == b3,
        (n >> 24u64) as u8 == b4,
        (n >> 16u64) as u8 == b5,
        (n >> 8u64) as u8 == b6,
        n as u8 == b7,
{
}

/// Distinct integers have distinct encodings.
pub proof fn lemma_be32_injective(m: u32, n: u32)
    requires
        be32(m) == be32(n),
    ensures
        m == n,
{
    assert(be32(m)[0] == be32(n)[0] && be32(m)[1] == be32(n)[1] && be32(m)[2] == be32(n)[2]
        && be32(m)[3] == be32(n)[3]);
    lemma_be32_join(m);
    lemma_be32_join(n);
}

/// Distinct integers have distinct encodings.
pub proof fn lemma_be64_injective(m: u64, n: u64)
    requires
        be64(m) == be64(n),
    ensures
        m == n,
{
    let (a, b) = (be64(m), be64(n));
    assert(a[0] == b[0] && a[1] == b[1] && a[2] == b[2] && a[3] == b[3]);
    assert(a[4] == b[4] && a[5] == b[5] && a[6] == b[6] && a[7] == b[7]);
    assert(m == n) by (bit_vector)
        requires
            (m >> 56u64) as u8 == (n >> 56u64) as u8,
            (m >> 48u64) as u8 == (n >> 48u64) as u8,
            (m >> 40u64) as u8 == (n >> 40u64) as u8,
            (m >> 32u64) as u8 == (n >> 32u64) as u8,
            (m >> 24u64) as u8 == (n >> 24u64) as u8,
            (m >> 16u64) as u8 == (n >> 16u64) as u8,
            (m >> 8u64) as u8 == (n >> 8u64) as u8,
            m as u8 == n as u8,
    ;
}

/// Appends the big-endian bytes of `n` to `out`.
pub fn push_u32(out: &mut Vec<u8>, n: u32)
    ensures
        final(out)@ == old(out)@ + be32(n),
{
    out.push((n >> 24u32) as u8);
    out.push((n >> 16u32) as u8);
    out.push((n >> 8u32) as u8);
    out.push(n as u8);
    assert(final(out)@ =~= old(out)@ + be32(n));
}

/// Appends the big-endian bytes of `n` to `out`.
pub fn push_u64(out: &mut Vec<u8>, n: u64)
    ensures
        final(out)@ == old(out)@ + be64(n),
{
    out.push((n >> 56u64) as u8);
    out.push((n >> 48u64) as u8);
    out.push((n >> 40u64) as u8);
    out.push((n >> 32u64) as u8);
    out.push((n >> 24u64) as u8);
    out.push((n >> 16u64) as u8);
    out.push((n >> 8u64) as u8);
    out.push(n as u8);
    assert(final(out)@ =~= old(out)@ + be64(n));
}

/// Reads a big-endian `u32` at `pos`: the value and the position after it,
/// or `None` when fewer than four bytes remain.
pub fn read_u32(b: &[u8], pos: usize) -> (r: Option<(u32, usize)>)
    requires
        pos <= b@.len(),
    ensures
        match r {
            Some((n, p)) => p == pos + 4 && p <= b@.len() && b@.subrange(pos as int, p as int)
                == be32(n),
            None => pos + 4 > b@.len(),
        },
{
    if b.len() - pos < 4 {
        return None;
    }
    let (x0, x1, x2, x3) = (b[pos], b[pos + 1], b[pos + 2], b[pos + 3]);
    let n: u32 = ((x0 as u32) << 24u32) | ((x1 as u32) << 16u32) | ((x2 as u32) << 8u32) | (
    x3 as u32);
    proof {
        lemma_be32_bits(n, x0, x1, x2, x3);
    }
    assert(b@.subrange(pos as int, pos + 4) =~= be32(n));
    Some((n, pos + 4))
}

/// Reads a big-endian `u64` at `pos`: the value and the position after it,
/// or `None` when fewer than eight bytes remain.
pub fn read_u64(b: &[u8], pos: usize) -> (r: Option<(u64, usize)>)
    requires
        pos <= b@.len(),
    ensures
        match r {
            Some((n, p)) => p == pos + 8 && p <= b@.len() && b@.subrange(pos as int, p as int)
                == be64(n),
            None => pos + 8 > b@.len(),
        },
{
    if b.len() - pos < 8 {
        return None;
    }
    let x0 = b[pos];
    let x1 = b[pos + 1];
    let x2 = b[pos + 2];
    let x3 = b[pos + 3];
    let x4 = b[pos + 4];
    let x5 = b[pos + 5];
    let x6 = b[pos + 6];
    let x7 = b[pos + 7];
    let n: u64 = ((x0 as u64) << 56u64) | ((x1 as u64) << 48u64) | ((x2 as u64) << 40u64) | ((
    x3 as u64) << 32u64) | ((x4 as u64) << 24u64) | ((x5 as u64) << 16u64) | ((x6 as u64)
        << 8u64) | (x7 as u64);
    proof {
        lemma_be64_bits(n, x0, x1, x2, x3, x4, x5, x6, x7);
    }
    assert(b@.subrange(pos as int, pos + 8) =~= be64(n));
    Some((n, pos + 8))
}

} // verus!
