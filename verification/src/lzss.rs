//! Decoder for the custom LZSS-variant compression used by the legacy
//! multi-image containers.
//!
//! The bitstream is read MSB-first. Each unit starts with one flag bit:
//! `1` means the next 8 bits are a literal byte; `0` means a 13-bit
//! window index follows (index 0 terminates the stream) and then a
//! 4-bit length. A back-reference copies `length + 3` bytes out of a
//! circular 8192-byte window, one byte at a time, each copied byte being
//! written back into the window as it is produced, so references that
//! overlap their own output are legal. Input that runs out of bits
//! mid-unit is a fatal decode error, never silently wrapped.

use vstd::prelude::*;
use vstd::arithmetic::power2::{pow2, lemma2_to64};

verus! {

pub const WIN_LEN: usize = 8192;

pub const IDX_BITS: usize = 13;

pub const LEN_BITS: usize = 4;

/// Runs shorter than this never pay for themselves as back-references,
/// so the stored 4-bit length is biased by it.
pub const BREAKEVEN: usize = 2;

#[derive(Debug, Clone, Copy, PartialEq, Eq, Structural)]
pub enum ExpandError {
    /// The bitstream ended in the middle of a decode unit.
    Underrun,
}

/// Bit `i` of the stream, counting MSB-first within each byte.
pub open spec fn spec_bit(bs: Seq<u8>, i: int) -> u8 {
    (bs[i / 8] >> ((7 - (i % 8)) as u8)) & 1
}

/// The value of the `n` bits starting at bit position `pos`, MSB first.
pub open spec fn spec_bits(bs: Seq<u8>, pos: int, n: nat) -> int
    decreases n,
{
    if n == 0 {
        0
    } else {
        2 * spec_bits(bs, pos, (n - 1) as nat) + spec_bit(bs, pos + n - 1)
    }
}

proof fn lemma_bits_one(bs: Seq<u8>, pos: int)
    ensures
        spec_bits(bs, pos, 1) == spec_bit(bs, pos),
        spec_bit(bs, pos) <= 1,
{
    reveal_with_fuel(spec_bits, 2);
    let b = bs[pos / 8];
    let s = (7 - (pos % 8)) as u8;
    assert(((b >> s) & 1) <= 1) by (bit_vector);
}

/// Copy `k` bytes out of the circular window starting at `p`, writing
/// each byte back at the cursor as it is emitted. Returns the emitted
/// bytes, the new window, and the new cursor.
pub open spec fn spec_copy(win: Seq<u8>, cur: int, p: int, k: int) -> (Seq<u8>, Seq<u8>, int)
    decreases k,
{
    if k <= 0 {
        (Seq::empty(), win, cur)
    } else {
        let b = win[p % (WIN_LEN as int)];
        let step = spec_copy(win.update(cur, b), (cur + 1) % (WIN_LEN as int), p + 1, k - 1);
        (seq![b] + step.0, step.1, step.2)
    }
}

proof fn lemma_copy_len(win: Seq<u8>, cur: int, p: int, k: int)
    ensures
        spec_copy(win, cur, p, k).0.len() == if k <= 0 { 0int } else { k },
    decreases k,
{
    if k > 0 {
        let b = win[p % (WIN_LEN as int)];
        lemma_copy_len(win.update(cur, b), (cur + 1) % (WIN_LEN as int), p + 1, k - 1);
    }
}

proof fn lemma_copy_reads(win: Seq<u8>, cur: int, p: int, k: int, i: int)
    requires
        win.len() == WIN_LEN,
        0 <= p < cur,
        cur + k <= WIN_LEN,
        0 <= i < k,
    ensures
        spec_copy(win, cur, p, k).0[i] == (if p + i < cur {
            win[p + i]
        } else {
            spec_copy(win, cur, p, k).0[i - (cur - p)]
        }),
    decreases k,
{
    let b = win[p % (WIN_LEN as int)];
    let win1 = win.update(cur, b);
    let tail = spec_copy(win1, (cur + 1) % (WIN_LEN as int), p + 1, k - 1);
    let out = spec_copy(win, cur, p, k).0;
    assert(p % (WIN_LEN as int) == p);
    lemma_copy_len(win1, (cur + 1) % (WIN_LEN as int), p + 1, k - 1);
    assert(out == seq![b] + tail.0);
    assert(out[0] == b);
    if i >= 1 {
        assert((cur + 1) % (WIN_LEN as int) == cur + 1);
        lemma_copy_reads(win1, cur + 1, p + 1, k - 1, i - 1);
        assert(out[i] == tail.0[i - 1]);
        if p + i < cur + 1 {
            assert(out[i] == win1[p + i]);
            if p + i < cur {
                assert(win1[p + i] == win[p + i]);
            } else {
                assert(p + i == cur);
                assert(i == cur - p);
                assert(win1[cur] == b);
                assert(out[i - (cur - p)] == b);
            }
        } else {
            assert(out[i] == tail.0[(i - 1) - ((cur + 1) - (p + 1))]);
            assert(i - (cur - p) >= 1);
            assert(out[i - (cur - p)] == tail.0[i - (cur - p) - 1]);
        }
    }
}

/// Overlapping back-references re-read their own output: the window is
/// written one byte at a time as it is read, so once the read position
/// reaches the write cursor, each copied byte equals the byte this same
/// back-reference produced `cur - p` steps earlier -- the copy repeats
/// the last `cur - p` window bytes for as long as it runs (within one
/// window pass).
pub proof fn lemma_overlapping_backref_repeats(
    win: Seq<u8>, cur: int, p: int, k: int, i: int,
)
    requires
        win.len() == WIN_LEN,
        0 <= p < cur,
        cur + k <= WIN_LEN,
        cur - p <= i < k,
    ensures
        spec_copy(win, cur, p, k).0[i] == spec_copy(win, cur, p, k).0[i - (cur - p)],
{
    lemma_copy_reads(win, cur, p, k, i);
}

/// The decoded remainder of the stream from bit position `pos`, given
/// the current window contents and cursor; `None` on underrun.
#[verifier::opaque]
pub open spec fn spec_expand_from(bs: Seq<u8>, pos: int, win: Seq<u8>, cur: int) -> Option<Seq<u8>>
    decreases 8 * bs.len() - pos,
{
    if pos < 0 || pos + 1 > 8 * bs.len() {
        None
    } else if spec_bit(bs, pos) == 1 {
        if pos + 9 > 8 * bs.len() {
            None
        } else {
            let b = spec_bits(bs, pos + 1, 8) as u8;
            match spec_expand_from(bs, pos + 9, win.update(cur, b), (cur + 1) % (WIN_LEN as int)) {
                None => None,
                Some(rest) => Some(seq![b] + rest),
            }
        }
    } else {
        if pos + 14 > 8 * bs.len() {
            None
        } else if spec_bits(bs, pos + 1, 13) == 0 {
            Some(Seq::empty())
        } else if pos + 18 > 8 * bs.len() {
            None
        } else {
            let p = spec_bits(bs, pos + 1, 13);
            let k = spec_bits(bs, pos + 14, 4) + BREAKEVEN + 1;
            let step = spec_copy(win, cur, p, k);
            match spec_expand_from(bs, pos + 18, step.1, step.2) {
                None => None,
                Some(rest) => Some(step.0 + rest),
            }
        }
    }
}

/// What `expand` returns: the stream decoded against an all-zero window
/// with the cursor starting at 1, or `None` for malformed input.
pub open spec fn spec_expand(bs: Seq<u8>) -> Option<Seq<u8>> {
    spec_expand_from(bs, 0, Seq::new(WIN_LEN as nat, |i| 0u8), 1)
}

proof fn lemma_expand_none(bs: Seq<u8>, pos: int, win: Seq<u8>, cur: int)
    requires
        0 <= pos,
        pos + 1 > 8 * bs.len()
            || (spec_bit(bs, pos) == 1 && pos + 9 > 8 * bs.len())
            || (spec_bit(bs, pos) != 1 && pos + 14 > 8 * bs.len())
            || (spec_bit(bs, pos) != 1 && spec_bits(bs, pos + 1, 13) != 0
                && pos + 18 > 8 * bs.len()),
    ensures
        spec_expand_from(bs, pos, win, cur) is None,
{
    reveal(spec_expand_from);
}

proof fn lemma_expand_literal(bs: Seq<u8>, pos: int, win: Seq<u8>, cur: int, b: u8)
    requires
        0 <= pos,
        pos + 9 <= 8 * bs.len(),
        spec_bit(bs, pos) == 1,
        b == spec_bits(bs, pos + 1, 8) as u8,
    ensures
        spec_expand_from(bs, pos, win, cur)
            == match spec_expand_from(bs, pos + 9, win.update(cur, b),
                    (cur + 1) % (WIN_LEN as int)) {
                None => None::<Seq<u8>>,
                Some(rest) => Some(seq![b] + rest),
            },
{
    reveal(spec_expand_from);
}

proof fn lemma_expand_end(bs: Seq<u8>, pos: int, win: Seq<u8>, cur: int)
    requires
        0 <= pos,
        pos + 14 <= 8 * bs.len(),
        spec_bit(bs, pos) != 1,
        spec_bits(bs, pos + 1, 13) == 0,
    ensures
        spec_expand_from(bs, pos, win, cur) == Some(Seq::<u8>::empty()),
{
    reveal(spec_expand_from);
}

proof fn lemma_expand_backref(bs: Seq<u8>, pos: int, win: Seq<u8>, cur: int)
    requires
        0 <= pos,
        pos + 18 <= 8 * bs.len(),
        spec_bit(bs, pos) != 1,
        spec_bits(bs, pos + 1, 13) != 0,
    ensures
        spec_expand_from(bs, pos, win, cur)
            == ({
                let p = spec_bits(bs, pos + 1, 13);
                let k = spec_bits(bs, pos + 14, 4) + BREAKEVEN + 1;
                let step = spec_copy(win, cur, p, k);
                match spec_expand_from(bs, pos + 18, step.1, step.2) {
                    None => None::<Seq<u8>>,
                    Some(rest) => Some(step.0 + rest),
                }
            }),
{
    reveal(spec_expand_from);
}

/// Read `n` bits MSB-first at bit position `pos`; `Err` if the stream
/// has fewer than `pos + n` bits.
fn read_bits(bs: &[u8], pos: usize, n: usize) -> (r: Result<(u32, usize), ExpandError>)
    requires
        n <= 13,
        8 * bs@.len() + 18 <= usize::MAX,
        pos <= 8 * bs@.len(),
    ensures
        match r {
            Ok(v) => {
                &&& pos + n <= 8 * bs@.len()
                &&& v.1 == pos + n
                &&& v.0 == spec_bits(bs@, pos as int, n as nat)
                &&& v.0 < pow2(n as nat)
            },
            Err(_) => pos + n > 8 * bs@.len(),
        },
{
    if n > bs.len() * 8 - pos {
        return Err(ExpandError::Underrun);
    }
    let mut v: u32 = 0;
    let mut j: usize = 0;
    proof { lemma2_to64(); }
    while j < n
        invariant
            j <= n <= 13,
            8 * bs@.len() + 18 <= usize::MAX,
            pos + n <= 8 * bs@.len(),
            v == spec_bits(bs@, pos as int, j as nat),
            v < pow2(j as nat),
        decreases n - j,
    {
        let q = pos + j;
        let byte = bs[q / 8];
        let sh: u8 = (7 - (q % 8)) as u8;
        let bitv: u8 = (byte >> sh) & 1;
        proof {
            lemma2_to64();
            assert(bitv == spec_bit(bs@, q as int));
            assert(spec_bits(bs@, pos as int, (j + 1) as nat)
                == 2 * spec_bits(bs@, pos as int, j as nat) + spec_bit(bs@, pos as int + j));
            assert(pow2((j + 1) as nat) == 2 * pow2(j as nat)) by {
                vstd::arithmetic::power2::lemma_pow2_unfold((j + 1) as nat);
            }
            assert(((byte >> sh) & 1) <= 1) by (bit_vector);
        }
        v = v * 2 + (bitv as u32);
        j = j + 1;
    }
    Ok((v, pos + n))
}

/// Copy one back-reference out of the window, mirroring `spec_copy`.
fn copy_backref(out: &mut Vec<u8>, window: &mut Vec<u8>, cur: usize, p: usize, count: usize)
    -> (r: usize)
    requires
        old(window)@.len() == WIN_LEN,
        cur < WIN_LEN,
        p < WIN_LEN,
        count <= 18,
    ensures
        final(window)@.len() == WIN_LEN,
        r < WIN_LEN,
        ({
            let t = spec_copy(old(window)@, cur as int, p as int, count as int);
            &&& final(out)@ == old(out)@ + t.0
            &&& final(window)@ == t.1
            &&& r == t.2
        }),
{
    let ghost w0 = old(window)@;
    let ghost c0 = cur as int;
    let ghost out0 = old(out)@;
    let ghost total = spec_copy(w0, c0, p as int, count as int);
    let mut cur = cur;
    let mut i: usize = 0;
    while i < count
        invariant
            i <= count <= 18,
            p < WIN_LEN,
            window@.len() == WIN_LEN,
            cur < WIN_LEN,
            out@.len() == out0.len() + i,
            out@.take(out0.len() as int) == out0,
            total == spec_copy(w0, c0, p as int, count as int),
            total.0 == out@.skip(out0.len() as int)
                + spec_copy(window@, cur as int, p + i, count - i).0,
            total.1 == spec_copy(window@, cur as int, p + i, count - i).1,
            total.2 == spec_copy(window@, cur as int, p + i, count - i).2,
        decreases count - i,
    {
        let b = window[(p + i) % WIN_LEN];
        let ghost w_old = window@;
        let ghost cur_old = cur as int;
        let ghost done_old = out@.skip(out0.len() as int);
        out.push(b);
        window[cur] = b;
        cur = (cur + 1) % WIN_LEN;
        proof {
            assert(window@ =~= w_old.update(cur_old, b));
            let tail = spec_copy(window@, cur as int, p + i + 1, count - i - 1);
            assert(spec_copy(w_old, cur_old, p + i, count - i).0
                == seq![b] + tail.0);
            assert(out@.take(out0.len() as int) =~= out0);
            assert(out@.skip(out0.len() as int) =~= done_old + seq![b]);
            assert((done_old + seq![b]) + tail.0 =~= done_old + (seq![b] + tail.0));
        }
        i = i + 1;
    }
    proof {
        assert(spec_copy(window@, cur as int, p + count, 0).0 =~= Seq::<u8>::empty());
        assert(out@.skip(out0.len() as int) + Seq::<u8>::empty()
            =~= out@.skip(out0.len() as int));
    }
    cur
}

/// Decode a whole LZSS stream. Returns the decompressed bytes exactly
/// when the stream is well formed, and `Err` exactly when it runs past
/// the end of the input before its terminator.
pub fn expand(bs: &[u8]) -> (r: Result<Vec<u8>, ExpandError>)
    requires
        8 * bs@.len() + 18 <= usize::MAX,
    ensures
        match r {
            Ok(out) => spec_expand(bs@) == Some(out@),
            Err(_) => spec_expand(bs@) is None,
        },
{
    let mut out: Vec<u8> = Vec::new();
    let mut window: Vec<u8> = Vec::new();
    window.resize(WIN_LEN, 0u8);
    proof {
        assert(window@ =~= Seq::new(WIN_LEN as nat, |i| 0u8));
    }
    let mut pos: usize = 0;
    let mut cur: usize = 1;
    loop
        invariant
            window@.len() == WIN_LEN,
            cur < WIN_LEN,
            pos <= 8 * bs@.len(),
            8 * bs@.len() + 18 <= usize::MAX,
            spec_expand(bs@) == match spec_expand_from(bs@, pos as int, window@, cur as int) {
                None => None::<Seq<u8>>,
                Some(rest) => Some(out@ + rest),
            },
        decreases 8 * bs@.len() - pos,
    {
        let flag = match read_bits(bs, pos, 1) {
            Ok(v) => v.0,
            Err(e) => {
                proof { lemma_expand_none(bs@, pos as int, window@, cur as int); }
                return Err(e);
            },
        };
        proof { lemma_bits_one(bs@, pos as int); }
        if flag != 0 {
            let (b, p2) = match read_bits(bs, pos + 1, 8) {
                Ok(v) => v,
                Err(e) => {
                    proof { lemma_expand_none(bs@, pos as int, window@, cur as int); }
                    return Err(e);
                },
            };
            let byte = b as u8;
            let ghost w_old = window@;
            let ghost cur_old = cur as int;
            let ghost out_old = out@;
            out.push(byte);
            window[cur] = byte;
            cur = (cur + 1) % WIN_LEN;
            pos = p2;
            proof {
                assert(window@ =~= w_old.update(cur_old, byte));
                lemma_expand_literal(bs@, pos - 9, w_old, cur_old, byte);
                match spec_expand_from(bs@, pos as int, window@, cur as int) {
                    None => {},
                    Some(rest) => {
                        assert(out_old + (seq![byte] + rest) =~= out@ + rest);
                    },
                }
            }
        } else {
            let (pv, _p1) = match read_bits(bs, pos + 1, 13) {
                Ok(v) => v,
                Err(e) => {
                    proof { lemma_expand_none(bs@, pos as int, window@, cur as int); }
                    return Err(e);
                },
            };
            if pv == 0 {
                proof {
                    lemma_expand_end(bs@, pos as int, window@, cur as int);
                    assert(out@ + Seq::<u8>::empty() =~= out@);
                }
                return Ok(out);
            }
            let (lv, p2) = match read_bits(bs, pos + 14, 4) {
                Ok(v) => v,
                Err(e) => {
                    proof { lemma_expand_none(bs@, pos as int, window@, cur as int); }
                    return Err(e);
                },
            };
            let p = pv as usize;
            proof { lemma2_to64(); }
            let count = lv as usize + BREAKEVEN + 1;
            let ghost w0 = window@;
            let ghost c0 = cur as int;
            let ghost out0 = out@;
            cur = copy_backref(&mut out, &mut window, cur, p, count);
            pos = p2;
            proof {
                lemma_expand_backref(bs@, pos - 18, w0, c0);
                let total = spec_copy(w0, c0, p as int, count as int);
                match spec_expand_from(bs@, pos as int, window@, cur as int) {
                    None => {},
                    Some(rest) => {
                        assert(out0 + (total.0 + rest) =~= out@ + rest);
                    },
                }
            }
        }
    }
}

} // verus!
