use vstd::prelude::*;

verus! {

/// Value of four bytes read as a little-endian unsigned 32-bit integer.
pub open spec fn le32(s: Seq<u8>) -> nat
    recommends
        s.len() == 4,
{
    (s[0] + s[1] * 0x100 + s[2] * 0x1_0000 + s[3] * 0x100_0000) as nat
}

/// The same four bytes read as a two's-complement signed 32-bit integer.
pub open spec fn le32_signed(s: Seq<u8>) -> int {
    if le32(s) < 0x8000_0000 {
        le32(s) as int
    } else {
        le32(s) as int - 0x1_0000_0000
    }
}

/// Reads the little-endian 32-bit value stored at offset `i` of `data`.
pub fn u32_le_at(data: &[u8], i: usize) -> (r: u32)
    requires
        i + 4 <= data@.len(),
    ensures
        r == le32(data@.subrange(i as int, i as int + 4)),
{
    let b0 = data[i] as u32;
    let b1 = data[i + 1] as u32;
    let b2 = data[i + 2] as u32;
    let b3 = data[i + 3] as u32;
    let r = b0 + b1 * 0x100 + b2 * 0x1_0000 + b3 * 0x100_0000;
    proof {
        let s = data@.subrange(i as int, i as int + 4);
        assert(s[0] == data@[i as int]);
        assert(s[1] == data@[i as int + 1]);
        assert(s[2] == data@[i as int + 2]);
        assert(s[3] == data@[i as int + 3]);
    }
    r
}

/// Reinterprets an unsigned 32-bit value as its two's-complement signed
/// counterpart.
pub fn i32_from_u32(v: u32) -> (r: i32)
    ensures
        r as int == if v < 0x8000_0000 {
            v as int
        } else {
            v as int - 0x1_0000_0000
        },
{
    if v < 0x8000_0000 {
        v as i32
    } else {
        -((u32::MAX - v) as i32) - 1
    }
}

/// Floor of the square root, used to recover the side length of square
/// byte images from their size.
pub fn int_sqrt(n: usize) -> (r: usize)
    ensures
        (r as int) * (r as int) <= n as int,
        (n as int) < (r as int + 1) * (r as int + 1),
{
    let mut lo: u128 = 0;
    let mut hi: u128 = 0x1_0000_0000;
    assert((n as int) < hi * hi) by (nonlinear_arith)
        requires
            hi == 0x1_0000_0000,
            n as int <= 0xFFFF_FFFF_FFFF_FFFF,
    ;
    while lo + 1 < hi
        invariant
            lo < hi <= 0x1_0000_0000,
            (lo as int) * (lo as int) <= n as int,
            (n as int) < (hi as int) * (hi as int),
        decreases hi - lo,
    {
        let mid = lo + (hi - lo) / 2;
        proof {
            assert((mid as int) * (mid as int) <= 0x1_0000_0000 * 0x1_0000_0000)
                by (nonlinear_arith)
                requires
                    0 <= mid <= 0x1_0000_0000,
            ;
        }
        if mid * mid <= n as u128 {
            lo = mid;
        } else {
            hi = mid;
        }
    }
    proof {
        assert((n as int) < (lo as int + 1) * (lo as int + 1)) by (nonlinear_arith)
            requires
                lo + 1 >= hi,
                (n as int) < (hi as int) * (hi as int),
                0 < hi,
        ;
    }
    lo as usize
}


/// A window of the unread tail of a stream is the same window of the
/// stream itself, shifted by the amount skipped.
pub proof fn lemma_skip_subrange(c: Seq<u8>, k: int, a: int, b: int)
    requires
        0 <= k <= c.len(),
        0 <= a <= b <= c.len() - k,
    ensures
        c.skip(k).subrange(a, b) == c.subrange(k + a, k + b),
{
    assert forall|m: int| 0 <= m < b - a implies c.skip(k).subrange(a, b)[m] == c.subrange(
        k + a,
        k + b,
    )[m] by {
        assert(c.skip(k)[a + m] == c[k + a + m]);
    }
    assert(c.skip(k).subrange(a, b) =~= c.subrange(k + a, k + b));
}

} // verus!
