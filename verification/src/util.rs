//! Small shared helpers: the content hash used for asset identifiers,
//! row-major coordinate enumeration, and fixed-point normalised values.

use vstd::prelude::*;

verus! {

/// FNV-1a over a byte sequence, 64-bit variant: fold each byte into the
/// running hash with xor, then multiply by the FNV prime (wrapping).
pub open spec fn spec_fnv1a_64(bs: Seq<u8>) -> u64
    decreases bs.len(),
{
    if bs.len() == 0 {
        0xcbf29ce4_84222325u64
    } else {
        (spec_fnv1a_64(bs.drop_last()) ^ (bs.last() as u64)).wrapping_mul(0x00000100_000001B3u64)
    }
}

/// 64-bit FNV-1a content hash; the basis of every asset identifier.
pub fn fnv1a_64(bs: &[u8]) -> (h: u64)
    ensures
        h == spec_fnv1a_64(bs@),
{
    let mut h: u64 = 0xcbf29ce4_84222325;
    let mut i: usize = 0;
    while i != bs.len()
        invariant
            i <= bs@.len(),
            h == spec_fnv1a_64(bs@.take(i as int)),
        decreases bs@.len() - i,
    {
        h = h ^ (bs[i] as u64);
        h = h.wrapping_mul(0x00000100_000001B3);
        proof {
            let t = bs@.take(i + 1);
            assert(t.drop_last() =~= bs@.take(i as int));
            assert(t.last() == bs@[i as int]);
        }
        i = i + 1;
    }
    proof {
        assert(bs@.take(bs@.len() as int) =~= bs@);
    }
    h
}

/// All coordinate pairs of the rectangle `[0, wide) x [0, high)` in
/// row-major order: `y` varies slowest, `x` fastest.
pub open spec fn spec_row_major_at(wide: int, k: int) -> [i32; 2] {
    [(k % wide) as i32, (k / wide) as i32]
}

/// Enumerate the coordinates of a `wide` x `high` rectangle row by row.
pub fn row_major(wide: i32, high: i32) -> (r: Vec<[i32; 2]>)
    requires
        0 <= wide,
        0 <= high,
        wide * high <= usize::MAX,
    ensures
        r@.len() == wide * high,
        forall|k: int| 0 <= k < r@.len() ==> r@[k] == spec_row_major_at(wide as int, k),
{
    let mut r: Vec<[i32; 2]> = Vec::new();
    let mut y: i32 = 0;
    while y != high
        invariant
            0 <= y <= high,
            0 <= wide,
            wide * high <= usize::MAX,
            r@.len() == wide * y,
            forall|k: int| 0 <= k < r@.len() ==> r@[k] == spec_row_major_at(wide as int, k),
        decreases high - y,
    {
        let mut x: i32 = 0;
        proof {
            assert(wide * (y + 1) <= wide * high) by (nonlinear_arith)
                requires 0 <= wide, y + 1 <= high;
        }
        while x != wide
            invariant
                0 <= x <= wide,
                0 <= y < high,
                wide * high <= usize::MAX,
                wide * (y + 1) <= wide * high,
                r@.len() == wide * y + x,
                forall|k: int| 0 <= k < r@.len() ==> r@[k] == spec_row_major_at(wide as int, k),
            decreases wide - x,
        {
            proof {
                let k = wide * y + x;
                assert(wide * y + x == y * (wide as int) + x) by (nonlinear_arith);
                vstd::arithmetic::div_mod::lemma_fundamental_div_mod_converse(
                    k, wide as int, y as int, x as int);
            }
            r.push([x, y]);
            x = x + 1;
        }
        proof {
            assert(wide * y + wide == wide * (y + 1)) by (nonlinear_arith);
        }
        y = y + 1;
    }
    proof {
        assert(wide * high == wide * high);
    }
    r
}

/// A fraction of one, stored as `x / 65535`.
#[derive(Debug, Clone, Copy, PartialEq, Eq, Structural)]
pub struct UNorm16(pub u16);

/// A fraction of one, stored as `x / 255`.
#[derive(Debug, Clone, Copy, PartialEq, Eq, Structural)]
pub struct UNorm8(pub u8);

} // verus!
