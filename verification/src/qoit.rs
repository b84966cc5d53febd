//! Streaming lossless pixel codec used for every raster stored in the
//! archive: a per-pixel scheme with run-length, palette-index, delta and
//! luma opcodes over flat RGBA buffers.
//!
//! The stream carries no dimensions; callers pair each encoded raster
//! with its width and height so a decoder can allocate before decoding.

use vstd::prelude::*;

verus! {

pub type Pixel = [u8; 4];

#[derive(Debug, Clone, Copy, PartialEq, Eq, Structural)]
pub enum DecodeError {
    /// The input ended in the middle of an opcode.
    Underrun,
}

#[derive(Debug, Clone, Copy, PartialEq, Eq, Structural)]
pub enum EncodeError {
    /// The output sink rejected a byte. A growable output never does.
    Overrun,
}

/// The palette slot a pixel hashes to.
pub open spec fn spec_hash(p: Pixel) -> u8 {
    0x3f & p[0].wrapping_mul(3)
        .wrapping_add(p[1].wrapping_mul(5))
        .wrapping_add(p[2].wrapping_mul(7))
        .wrapping_add(p[3].wrapping_mul(11))
}

fn hash_pixel(p: Pixel) -> (r: u8)
    ensures
        r == spec_hash(p),
        r < 64,
{
    let s: u8 = p[0].wrapping_mul(3)
        .wrapping_add(p[1].wrapping_mul(5))
        .wrapping_add(p[2].wrapping_mul(7))
        .wrapping_add(p[3].wrapping_mul(11));
    let r = 0x3f & s;
    proof {
        assert(0x3f & s < 64) by (bit_vector);
    }
    r
}

/// Codec state carried across calls: the previous pixel, the 64-slot
/// pixel table, and any run of repeats not yet resolved.
pub struct State {
    pub prev: Pixel,
    pub array: Vec<Pixel>,
    pub run: usize,
}

impl State {
    pub open spec fn wf(self) -> bool {
        self.array@.len() == 64
    }

    pub fn new() -> (s: State)
        ensures
            s.wf(),
            s.prev == [0u8, 0u8, 0u8, 255u8],
            s.array@ == Seq::new(64, |i: int| [0u8, 0u8, 0u8, 0u8]),
            s.run == 0,
    {
        let mut array: Vec<Pixel> = Vec::new();
        let mut i: usize = 0;
        while i < 64
            invariant
                array@.len() == i <= 64,
                forall|j: int| 0 <= j < i ==> array@[j] == [0u8, 0u8, 0u8, 0u8],
            decreases 64 - i,
        {
            array.push([0, 0, 0, 0]);
            i = i + 1;
        }
        proof {
            assert(array@ =~= Seq::new(64, |i: int| [0u8, 0u8, 0u8, 0u8]));
        }
        State { prev: [0, 0, 0, 255], array, run: 0 }
    }
}

/// What decoding `n` pixels from `bytes` yields, starting from the
/// given state: the pixels, then the final previous pixel, table and
/// run, and how many input bytes were consumed; `None` on underrun.
#[verifier::opaque]
pub open spec fn spec_decode(
    prev: Pixel, arr: Seq<Pixel>, run: int, bytes: Seq<u8>, n: nat,
) -> Option<(Seq<Pixel>, Pixel, Seq<Pixel>, int, int)>
    decreases n, (if run > 0 { 0int } else { 1int }),
{
    if n == 0 {
        Some((Seq::empty(), prev, arr, run, 0))
    } else if run > 0 {
        let k = if run <= n { run } else { n as int };
        match spec_decode(prev, arr, run - k, bytes, (n - k) as nat) {
            None => None,
            Some(step) => Some((Seq::new(k as nat, |j: int| prev) + step.0,
                step.1, step.2, step.3, step.4)),
        }
    } else if bytes.len() < 1 {
        None
    } else {
        let b0 = bytes[0];
        if b0 == 0xff {
            if bytes.len() < 5 {
                None
            } else {
                spec_decode_emit([bytes[1], bytes[2], bytes[3], bytes[4]], arr, bytes, 5, n)
            }
        } else if b0 == 0xfe {
            if bytes.len() < 4 {
                None
            } else {
                spec_decode_emit([bytes[1], bytes[2], bytes[3], prev[3]], arr, bytes, 4, n)
            }
        } else if b0 <= 0x3f {
            spec_decode_emit(arr[b0 as int], arr, bytes, 1, n)
        } else if b0 <= 0x7f {
            let px = [
                prev[0].wrapping_add(((b0 >> 4) & 3).wrapping_sub(2)),
                prev[1].wrapping_add(((b0 >> 2) & 3).wrapping_sub(2)),
                prev[2].wrapping_add((b0 & 3).wrapping_sub(2)),
                prev[3],
            ];
            spec_decode_emit(px, arr, bytes, 1, n)
        } else if b0 <= 0xbf {
            if bytes.len() < 2 {
                None
            } else {
                let b1 = bytes[1];
                let dg = (b0 & 0x3f).wrapping_sub(32);
                let dr = dg.wrapping_add((b1 >> 4) & 0xf).wrapping_sub(8);
                let db = dg.wrapping_add(b1 & 0xf).wrapping_sub(8);
                let px = [
                    prev[0].wrapping_add(dr),
                    prev[1].wrapping_add(dg),
                    prev[2].wrapping_add(db),
                    prev[3],
                ];
                spec_decode_emit(px, arr, bytes, 2, n)
            }
        } else {
            // a run opcode; 0xfe and 0xff were handled above
            match spec_decode(prev, arr, (b0 & 0x3f) + 1, bytes.skip(1), n) {
                None => None,
                Some(step) => Some((step.0, step.1, step.2, step.3, step.4 + 1)),
            }
        }
    }
}

/// Emit one decoded pixel: it becomes the previous pixel and lands in
/// its table slot, then decoding continues after `used` input bytes.
#[verifier::opaque]
pub open spec fn spec_decode_emit(
    px: Pixel, arr: Seq<Pixel>, bytes: Seq<u8>, used: int, n: nat,
) -> Option<(Seq<Pixel>, Pixel, Seq<Pixel>, int, int)>
    decreases n, 0int,
{
    if n < 1 {
        None
    } else {
        match spec_decode(px, arr.update(spec_hash(px) as int, px), 0,
            bytes.skip(used), (n - 1) as nat) {
            None => None,
            Some(step) => Some((seq![px] + step.0, step.1, step.2, step.3, step.4 + used)),
        }
    }
}


proof fn lemma_decode_done(prev: Pixel, arr: Seq<Pixel>, run: int, bytes: Seq<u8>)
    ensures
        spec_decode(prev, arr, run, bytes, 0) == Some((Seq::<Pixel>::empty(), prev, arr, run,
            0int)),
{
    reveal(spec_decode);
}

proof fn lemma_decode_run(prev: Pixel, arr: Seq<Pixel>, run: int, bytes: Seq<u8>, n: nat)
    requires
        n >= 1,
        run > 0,
    ensures
        spec_decode(prev, arr, run, bytes, n) == ({
            let k = if run <= n { run } else { n as int };
            match spec_decode(prev, arr, run - k, bytes, (n - k) as nat) {
                None => None::<(Seq<Pixel>, Pixel, Seq<Pixel>, int, int)>,
                Some(step) => Some((Seq::new(k as nat, |j: int| prev) + step.0,
                    step.1, step.2, step.3, step.4)),
            }
        }),
{
    reveal(spec_decode);
}

proof fn lemma_decode_none(prev: Pixel, arr: Seq<Pixel>, bytes: Seq<u8>, n: nat)
    requires
        n >= 1,
        bytes.len() < 1
            || (bytes[0] == 0xff && bytes.len() < 5)
            || (bytes[0] == 0xfe && bytes.len() < 4)
            || (0x80 <= bytes[0] <= 0xbf && bytes.len() < 2),
    ensures
        spec_decode(prev, arr, 0, bytes, n) is None,
{
    reveal(spec_decode);
}

proof fn lemma_op_rgba(prev: Pixel, arr: Seq<Pixel>, bytes: Seq<u8>, n: nat)
    requires
        n >= 1,
        bytes.len() >= 5,
        bytes[0] == 0xff,
    ensures
        spec_decode(prev, arr, 0, bytes, n)
            == spec_decode_emit([bytes[1], bytes[2], bytes[3], bytes[4]], arr, bytes, 5, n),
{
    reveal(spec_decode);
    reveal(spec_decode_emit);
}

proof fn lemma_op_rgb(prev: Pixel, arr: Seq<Pixel>, bytes: Seq<u8>, n: nat)
    requires
        n >= 1,
        bytes.len() >= 4,
        bytes[0] == 0xfe,
    ensures
        spec_decode(prev, arr, 0, bytes, n)
            == spec_decode_emit([bytes[1], bytes[2], bytes[3], prev[3]], arr, bytes, 4, n),
{
    reveal(spec_decode);
    reveal(spec_decode_emit);
}

proof fn lemma_op_index(prev: Pixel, arr: Seq<Pixel>, bytes: Seq<u8>, n: nat)
    requires
        n >= 1,
        bytes.len() >= 1,
        bytes[0] <= 0x3f,
    ensures
        spec_decode(prev, arr, 0, bytes, n)
            == spec_decode_emit(arr[bytes[0] as int], arr, bytes, 1, n),
{
    reveal(spec_decode);
    reveal(spec_decode_emit);
}

proof fn lemma_op_diff(prev: Pixel, arr: Seq<Pixel>, bytes: Seq<u8>, n: nat)
    requires
        n >= 1,
        bytes.len() >= 1,
        0x40 <= bytes[0] <= 0x7f,
    ensures
        spec_decode(prev, arr, 0, bytes, n) == ({
            let b0 = bytes[0];
            let px = [
                prev[0].wrapping_add(((b0 >> 4) & 3).wrapping_sub(2)),
                prev[1].wrapping_add(((b0 >> 2) & 3).wrapping_sub(2)),
                prev[2].wrapping_add((b0 & 3).wrapping_sub(2)),
                prev[3],
            ];
            spec_decode_emit(px, arr, bytes, 1, n)
        }),
{
    reveal(spec_decode);
    reveal(spec_decode_emit);
}

proof fn lemma_op_luma(prev: Pixel, arr: Seq<Pixel>, bytes: Seq<u8>, n: nat)
    requires
        n >= 1,
        bytes.len() >= 2,
        0x80 <= bytes[0] <= 0xbf,
    ensures
        spec_decode(prev, arr, 0, bytes, n) == ({
            let b0 = bytes[0];
            let b1 = bytes[1];
            let dg = (b0 & 0x3f).wrapping_sub(32);
            let dr = dg.wrapping_add((b1 >> 4) & 0xf).wrapping_sub(8);
            let db = dg.wrapping_add(b1 & 0xf).wrapping_sub(8);
            let px = [
                prev[0].wrapping_add(dr),
                prev[1].wrapping_add(dg),
                prev[2].wrapping_add(db),
                prev[3],
            ];
            spec_decode_emit(px, arr, bytes, 2, n)
        }),
{
    reveal(spec_decode);
    reveal(spec_decode_emit);
}

proof fn lemma_op_run(prev: Pixel, arr: Seq<Pixel>, bytes: Seq<u8>, n: nat)
    requires
        n >= 1,
        bytes.len() >= 1,
        0xc0 <= bytes[0] <= 0xfd,
    ensures
        spec_decode(prev, arr, 0, bytes, n)
            == match spec_decode(prev, arr, (bytes[0] & 0x3f) + 1, bytes.skip(1), n) {
                None => None::<(Seq<Pixel>, Pixel, Seq<Pixel>, int, int)>,
                Some(step) => Some((step.0, step.1, step.2, step.3, step.4 + 1)),
            },
{
    reveal(spec_decode);
}

#[verifier::rlimit(100)]
#[verifier::spinoff_prover]
proof fn lemma_emit_unfold(px: Pixel, arr: Seq<Pixel>, bytes: Seq<u8>, used: int, n: nat)
    requires
        n >= 1,
    ensures
        spec_decode_emit(px, arr, bytes, used, n)
            == match spec_decode(px, arr.update(spec_hash(px) as int, px), 0,
                    bytes.skip(used), (n - 1) as nat) {
                None => None::<(Seq<Pixel>, Pixel, Seq<Pixel>, int, int)>,
                Some(step) => Some((seq![px] + step.0, step.1, step.2, step.3,
                    step.4 + used)),
            },
{
    reveal(spec_decode);
    reveal(spec_decode_emit);
}

/// Record one decoded pixel in the output and in the codec state.
fn decode_emit(state: &mut State, out: &mut Vec<Pixel>, px: Pixel)
    requires
        old(state).wf(),
    ensures
        final(state).wf(),
        final(state).prev == px,
        final(state).run == old(state).run,
        final(state).array@ == old(state).array@.update(spec_hash(px) as int, px),
        final(out)@ == old(out)@ + seq![px],
{
    out.push(px);
    state.prev = px;
    let h = hash_pixel(px);
    state.array[h as usize] = px;
    proof {
        assert(out@ =~= old(out)@ + seq![px]);
    }
}

/// One parsed opcode: a pixel to emit after consuming that many input
/// bytes, or a pending run length after consuming one byte.
enum Parsed {
    Emit(Pixel, usize),
    Run(usize),
}

/// What `parse_op` promises of its result.
spec fn parse_op_post(st: State, bytes: Seq<u8>, used: int, m: nat, r: Result<Parsed, DecodeError>) -> bool {
    let rem = bytes.skip(used);
    match r {
        Ok(Parsed::Emit(px, adv)) => {
            &&& 1 <= adv <= 5
            &&& used + adv <= bytes.len()
            &&& spec_decode(st.prev, st.array@, 0, rem, m)
                == spec_decode_emit(px, st.array@, rem, adv as int, m)
        },
        Ok(Parsed::Run(k)) => {
            &&& k >= 1
            &&& used + 1 <= bytes.len()
            &&& spec_decode(st.prev, st.array@, 0, rem, m)
                == (match spec_decode(st.prev, st.array@, k as int, rem.skip(1), m) {
                    None => None::<(Seq<Pixel>, Pixel, Seq<Pixel>, int, int)>,
                    Some(step) => Some((step.0, step.1, step.2, step.3, step.4 + 1)),
                })
        },
        Err(_) => spec_decode(st.prev, st.array@, 0, rem, m) is None,
    }
}

/// Read one opcode at `bytes[used..]` without touching any state.
#[verifier::rlimit(100)]
#[verifier::spinoff_prover]
fn parse_op(state: &State, bytes: &[u8], used: usize, Ghost(m): Ghost<nat>)
    -> (r: Result<Parsed, DecodeError>)
    requires
        state.wf(),
        state.run == 0,
        used <= bytes@.len(),
        m >= 1,
    ensures
        parse_op_post(*state, bytes@, used as int, m, r),
        bytes@.len() <= usize::MAX,
{
    let ghost rem = bytes@.skip(used as int);
    if bytes.len() - used < 1 {
        proof { lemma_decode_none(state.prev, state.array@, rem, m); }
        return Err(DecodeError::Underrun);
    }
    let b0 = bytes[used];
    proof {
        assert(rem[0] == b0);
    }
    if b0 == 0xff {
        if bytes.len() - used < 5 {
            proof { lemma_decode_none(state.prev, state.array@, rem, m); }
            return Err(DecodeError::Underrun);
        }
        let px = [bytes[used + 1], bytes[used + 2], bytes[used + 3], bytes[used + 4]];
        proof {
            lemma_op_rgba(state.prev, state.array@, rem, m);
        }
        Ok(Parsed::Emit(px, 5))
    } else if b0 == 0xfe {
        if bytes.len() - used < 4 {
            proof { lemma_decode_none(state.prev, state.array@, rem, m); }
            return Err(DecodeError::Underrun);
        }
        let px = [bytes[used + 1], bytes[used + 2], bytes[used + 3], state.prev[3]];
        proof {
            lemma_op_rgb(state.prev, state.array@, rem, m);
        }
        Ok(Parsed::Emit(px, 4))
    } else if b0 <= 0x3f {
        let px = state.array[b0 as usize];
        proof {
            lemma_op_index(state.prev, state.array@, rem, m);
        }
        Ok(Parsed::Emit(px, 1))
    } else if b0 <= 0x7f {
        let px = [
            state.prev[0].wrapping_add(((b0 >> 4) & 3).wrapping_sub(2)),
            state.prev[1].wrapping_add(((b0 >> 2) & 3).wrapping_sub(2)),
            state.prev[2].wrapping_add((b0 & 3).wrapping_sub(2)),
            state.prev[3],
        ];
        proof {
            lemma_op_diff(state.prev, state.array@, rem, m);
        }
        Ok(Parsed::Emit(px, 1))
    } else if b0 <= 0xbf {
        if bytes.len() - used < 2 {
            proof { lemma_decode_none(state.prev, state.array@, rem, m); }
            return Err(DecodeError::Underrun);
        }
        let b1 = bytes[used + 1];
        let dg = (b0 & 0x3f).wrapping_sub(32);
        let dr = dg.wrapping_add((b1 >> 4) & 0xf).wrapping_sub(8);
        let db = dg.wrapping_add(b1 & 0xf).wrapping_sub(8);
        let px = [
            state.prev[0].wrapping_add(dr),
            state.prev[1].wrapping_add(dg),
            state.prev[2].wrapping_add(db),
            state.prev[3],
        ];
        proof {
            assert(rem[1] == b1);
            lemma_op_luma(state.prev, state.array@, rem, m);
        }
        Ok(Parsed::Emit(px, 2))
    } else {
        proof {
            lemma_op_run(state.prev, state.array@, rem, m);
        }
        Ok(Parsed::Run((b0 & 0x3f) as usize + 1))
    }
}

impl State {
    /// Decode exactly `n` pixels, resuming from this state; returns the
    /// pixels and the number of input bytes consumed. An unresolved run
    /// stays in the state for the next call.
    #[verifier::rlimit(100)]
    #[verifier::spinoff_prover]
    pub fn decode_some(&mut self, n: usize, bytes: &[u8])
        -> (r: Result<(Vec<Pixel>, usize), DecodeError>)
        requires
            old(self).wf(),
        ensures
            final(self).wf(),
            match r {
                Ok(v) => v.1 <= bytes@.len()
                    && spec_decode(old(self).prev, old(self).array@, old(self).run as int,
                        bytes@, n as nat)
                    == Some((v.0@, final(self).prev, final(self).array@,
                        final(self).run as int, v.1 as int)),
                Err(_) => spec_decode(old(self).prev, old(self).array@, old(self).run as int,
                    bytes@, n as nat) is None,
            },
    {
        let ghost p0 = old(self).prev;
        let ghost a0 = old(self).array@;
        let ghost r0 = old(self).run as int;
        let mut out: Vec<Pixel> = Vec::new();
        let mut used: usize = 0;
        let mut produced: usize = 0;
        proof {
            assert(bytes@.skip(0) =~= bytes@);
            match spec_decode(p0, a0, r0, bytes@, n as nat) {
                None => {},
                Some(step) => {
                    assert(out@ + step.0 =~= step.0);
                },
            }
        }
        while produced < n
            invariant
                p0 == old(self).prev,
                a0 == old(self).array@,
                r0 == old(self).run as int,
                self.wf(),
                produced <= n,
                used <= bytes@.len(),
                out@.len() == produced,
                match spec_decode(self.prev, self.array@, self.run as int,
                        bytes@.skip(used as int), (n - produced) as nat) {
                    None => spec_decode(p0, a0, r0, bytes@, n as nat) is None,
                    Some(step) => spec_decode(p0, a0, r0, bytes@, n as nat)
                        == Some((out@ + step.0, step.1, step.2, step.3, used + step.4)),
                },
            decreases n - produced, (if self.run > 0 { 0int } else { 1int }),
        {
            let ghost rem = bytes@.skip(used as int);
            let ghost m = (n - produced) as nat;
            let ghost pv0 = self.prev;
            let ghost av0 = self.array@;
            let ghost rv0 = self.run as int;
            if self.run != 0 {
                let left = n - produced;
                let k = if self.run <= left { self.run } else { left };
                let pv = self.prev;
                let ghost out_mid = out@;
                let mut t: usize = 0;
                while t < k
                    invariant
                        t <= k,
                        pv == self.prev,
                        out@ == out_mid + Seq::new(t as nat, |j: int| pv),
                    decreases k - t,
                {
                    out.push(pv);
                    proof {
                        assert(out@ =~= out_mid + Seq::new((t + 1) as nat, |j: int| pv));
                    }
                    t = t + 1;
                }
                self.run = self.run - k;
                produced = produced + k;
                proof {
                    lemma_decode_run(pv0, av0, rv0, rem, m);
                    match spec_decode(self.prev, self.array@, self.run as int,
                            bytes@.skip(used as int), (n - produced) as nat) {
                        None => {},
                        Some(s2) => {
                            assert((out_mid + Seq::new(k as nat, |j: int| pv)) + s2.0
                                =~= out_mid + (Seq::new(k as nat, |j: int| pv) + s2.0));
                        },
                    }
                }
            } else {
                let parsed = match parse_op(self, bytes, used, Ghost(m)) {
                    Ok(p) => p,
                    Err(e) => {
                        proof {
                            assert(spec_decode(self.prev, self.array@, 0,
                                bytes@.skip(used as int), (n - produced) as nat) is None);
                            assert(spec_decode(self.prev, self.array@, self.run as int,
                                bytes@.skip(used as int), (n - produced) as nat) is None);
                        }
                        return Err(e);
                    },
                };
                match parsed {
                    Parsed::Emit(px, adv) => {
                        let ghost out_old = out@;
                        decode_emit(self, &mut out, px);
                        used = used + adv;
                        produced = produced + 1;
                        proof {
                            lemma_emit_unfold(px, av0, rem, adv as int, m);
                            assert(bytes@.skip(used as int) =~= rem.skip(adv as int));
                            match spec_decode(self.prev, self.array@, 0,
                                    bytes@.skip(used as int), (n - produced) as nat) {
                                None => {},
                                Some(s2) => {
                                    assert(out_old + (seq![px] + s2.0) =~= out@ + s2.0);
                                },
                            }
                        }
                    },
                    Parsed::Run(k) => {
                        self.run = k;
                        used = used + 1;
                        proof {
                            assert(bytes@.skip(used as int) =~= rem.skip(1));
                        }
                    },
                }
            }
        }
        proof {
            lemma_decode_done(self.prev, self.array@, self.run as int,
                bytes@.skip(used as int));
            assert(out@ + Seq::<Pixel>::empty() =~= out@);
        }
        Ok((out, used))
    }
}

/// Are two pixels equal?
fn pixel_eq(a: Pixel, b: Pixel) -> (r: bool)
    ensures
        r == (a == b),
{
    let r = a[0] == b[0] && a[1] == b[1] && a[2] == b[2] && a[3] == b[3];
    proof {
        if r {
            assert(a =~= b);
        }
    }
    r
}

/// The byte a pending run flushes to: nothing when no run is pending.
pub open spec fn spec_flush(run: int) -> Seq<u8> {
    if run > 0 {
        seq![0xc0u8 | ((run - 1) as u8)]
    } else {
        Seq::empty()
    }
}

/// The bytes one pixel encodes to when it differs from the previous
/// pixel: a table index, a small delta, a luma delta, or a literal.
pub open spec fn spec_encode_op(prev: Pixel, slot: Pixel, px: Pixel) -> Seq<u8> {
    if slot == px {
        seq![spec_hash(px)]
    } else if px[3] != prev[3] {
        seq![0xffu8, px[0], px[1], px[2], px[3]]
    } else {
        let dr = px[0].wrapping_sub(prev[0]);
        let dg = px[1].wrapping_sub(prev[1]);
        let db = px[2].wrapping_sub(prev[2]);
        let dr2 = dr.wrapping_add(2);
        let dg2 = dg.wrapping_add(2);
        let db2 = db.wrapping_add(2);
        let dg32 = dg.wrapping_add(32);
        let drdg8 = dr.wrapping_sub(dg).wrapping_add(8);
        let dbdg8 = db.wrapping_sub(dg).wrapping_add(8);
        if dr2 < 4 && dg2 < 4 && db2 < 4 {
            seq![0x40u8 | (dr2 << 4) | (dg2 << 2) | db2]
        } else if dg32 < 64 && drdg8 < 16 && dbdg8 < 16 {
            seq![0x80u8 | dg32, (drdg8 << 4) | dbdg8]
        } else {
            seq![0xfeu8, px[0], px[1], px[2]]
        }
    }
}

/// What encoding a pixel sequence emits, starting from the given
/// state: the bytes, then the final previous pixel, table and run.
#[verifier::opaque]
pub open spec fn spec_encode_some(prev: Pixel, arr: Seq<Pixel>, run: int, pixels: Seq<Pixel>)
    -> (Seq<u8>, Pixel, Seq<Pixel>, int)
    decreases pixels.len(),
{
    if pixels.len() == 0 {
        (Seq::empty(), prev, arr, run)
    } else {
        let px = pixels[0];
        let h = spec_hash(px) as int;
        if px == prev {
            let run1 = run + 1;
            let emitted: Seq<u8> = if run1 == 62 { spec_flush(62) } else { Seq::empty() };
            let r2: int = if run1 == 62 { 0 } else { run1 };
            let rest = spec_encode_some(prev, arr.update(h, px), r2, pixels.drop_first());
            (emitted + rest.0, rest.1, rest.2, rest.3)
        } else {
            let emitted = spec_flush(run) + spec_encode_op(prev, arr[h], px);
            let rest = spec_encode_some(px, arr.update(h, px), 0, pixels.drop_first());
            (emitted + rest.0, rest.1, rest.2, rest.3)
        }
    }
}

proof fn lemma_encode_done(prev: Pixel, arr: Seq<Pixel>, run: int)
    ensures
        spec_encode_some(prev, arr, run, Seq::empty())
            == (Seq::<u8>::empty(), prev, arr, run),
{
    reveal(spec_encode_some);
}

proof fn lemma_encode_eq(prev: Pixel, arr: Seq<Pixel>, run: int, pixels: Seq<Pixel>)
    requires
        pixels.len() >= 1,
        pixels[0] == prev,
    ensures
        spec_encode_some(prev, arr, run, pixels) == ({
            let px = pixels[0];
            let h = spec_hash(px) as int;
            let run1 = run + 1;
            let emitted: Seq<u8> = if run1 == 62 { spec_flush(62) } else { Seq::empty() };
            let r2: int = if run1 == 62 { 0 } else { run1 };
            let rest = spec_encode_some(prev, arr.update(h, px), r2, pixels.drop_first());
            (emitted + rest.0, rest.1, rest.2, rest.3)
        }),
{
    reveal(spec_encode_some);
}

proof fn lemma_encode_neq(prev: Pixel, arr: Seq<Pixel>, run: int, pixels: Seq<Pixel>)
    requires
        pixels.len() >= 1,
        pixels[0] != prev,
    ensures
        spec_encode_some(prev, arr, run, pixels) == ({
            let px = pixels[0];
            let h = spec_hash(px) as int;
            let emitted = spec_flush(run) + spec_encode_op(prev, arr[h], px);
            let rest = spec_encode_some(px, arr.update(h, px), 0, pixels.drop_first());
            (emitted + rest.0, rest.1, rest.2, rest.3)
        }),
{
    reveal(spec_encode_some);
}

/// Append the bytes one differing pixel encodes to.
fn push_op(output: &mut Vec<u8>, prev: Pixel, slot: Pixel, px: Pixel)
    ensures
        final(output)@ == old(output)@ + spec_encode_op(prev, slot, px),
{
    if pixel_eq(slot, px) {
        let h = hash_pixel(px);
        output.push(h);
        proof {
            assert(output@ =~= old(output)@ + spec_encode_op(prev, slot, px));
        }
    } else if px[3] != prev[3] {
        output.push(0xff);
        output.push(px[0]);
        output.push(px[1]);
        output.push(px[2]);
        output.push(px[3]);
        proof {
            assert(output@ =~= old(output)@ + spec_encode_op(prev, slot, px));
        }
    } else {
        let dr = px[0].wrapping_sub(prev[0]);
        let dg = px[1].wrapping_sub(prev[1]);
        let db = px[2].wrapping_sub(prev[2]);
        let dr2 = dr.wrapping_add(2);
        let dg2 = dg.wrapping_add(2);
        let db2 = db.wrapping_add(2);
        let dg32 = dg.wrapping_add(32);
        let drdg8 = dr.wrapping_sub(dg).wrapping_add(8);
        let dbdg8 = db.wrapping_sub(dg).wrapping_add(8);
        if dr2 < 4 && dg2 < 4 && db2 < 4 {
            output.push(0x40 | (dr2 << 4) | (dg2 << 2) | db2);
            proof {
                assert(output@ =~= old(output)@ + spec_encode_op(prev, slot, px));
            }
        } else if dg32 < 64 && drdg8 < 16 && dbdg8 < 16 {
            output.push(0x80 | dg32);
            output.push((drdg8 << 4) | dbdg8);
            proof {
                assert(output@ =~= old(output)@ + spec_encode_op(prev, slot, px));
            }
        } else {
            output.push(0xfe);
            output.push(px[0]);
            output.push(px[1]);
            output.push(px[2]);
            proof {
                assert(output@ =~= old(output)@ + spec_encode_op(prev, slot, px));
            }
        }
    }
}

impl State {
    /// Flush any pending run marker into the output.
    pub fn encode_flush(&mut self, output: &mut Vec<u8>) -> (r: Result<(), EncodeError>)
        requires
            old(self).wf(),
            old(self).run <= 62,
        ensures
            final(self).wf(),
            final(self).prev == old(self).prev,
            final(self).array@ == old(self).array@,
            final(self).run == 0,
            final(output)@ == old(output)@ + spec_flush(old(self).run as int),
            r is Ok,
    {
        if self.run != 0 {
            output.push(0xc0 | (self.run as u8 - 1));
            proof {
                assert(output@ =~= old(output)@ + spec_flush(old(self).run as int));
            }
        } else {
            proof {
                assert(output@ =~= old(output)@ + spec_flush(old(self).run as int));
            }
        }
        self.run = 0;
        Ok(())
    }

    /// Encode a pixel sequence, appending to `output`. A trailing run
    /// of repeats stays pending in the state until `encode_flush`.
    #[verifier::rlimit(100)]
    #[verifier::spinoff_prover]
    pub fn encode_some(&mut self, output: &mut Vec<u8>, pixels: &[Pixel])
        -> (r: Result<(), EncodeError>)
        requires
            old(self).wf(),
            old(self).run <= 61,
        ensures
            final(self).wf(),
            final(self).run <= 61,
            ({
                let t = spec_encode_some(old(self).prev, old(self).array@,
                    old(self).run as int, pixels@);
                &&& final(output)@ == old(output)@ + t.0
                &&& final(self).prev == t.1
                &&& final(self).array@ == t.2
                &&& final(self).run == t.3
            }),
            r is Ok,
    {
        let ghost p0 = old(self).prev;
        let ghost a0 = old(self).array@;
        let ghost r0 = old(self).run as int;
        let ghost out0 = old(output)@;
        let mut i: usize = 0;
        proof {
            assert(pixels@.skip(0) =~= pixels@);
            assert(output@.skip(out0.len() as int) =~= Seq::<u8>::empty());
            let t2 = spec_encode_some(self.prev, self.array@, self.run as int, pixels@);
            assert(Seq::<u8>::empty() + t2.0 =~= t2.0);
        }
        while i < pixels.len()
            invariant
                p0 == old(self).prev,
                a0 == old(self).array@,
                r0 == old(self).run as int,
                out0 == old(output)@,
                i <= pixels@.len(),
                self.wf(),
                self.run <= 61,
                output@.len() >= out0.len(),
                output@.take(out0.len() as int) == out0,
                ({
                    let t = spec_encode_some(p0, a0, r0, pixels@);
                    let t2 = spec_encode_some(self.prev, self.array@, self.run as int,
                        pixels@.skip(i as int));
                    &&& t.0 == output@.skip(out0.len() as int) + t2.0
                    &&& t.1 == t2.1
                    &&& t.2 == t2.2
                    &&& t.3 == t2.3
                }),
            decreases pixels@.len() - i,
        {
            let px = pixels[i];
            let h = hash_pixel(px);
            let ghost pv0 = self.prev;
            let ghost av0 = self.array@;
            let ghost rv0 = self.run as int;
            let ghost outd = output@.skip(out0.len() as int);
            let ghost prem = pixels@.skip(i as int);
            proof {
                assert(prem[0] == pixels@[i as int]);
                assert(prem.drop_first() =~= pixels@.skip(i + 1));
            }
            if pixel_eq(px, self.prev) {
                self.run = self.run + 1;
                if self.run == 62 {
                    output.push(0xc0 | 61);
                    self.run = 0;
                }
                self.array[h as usize] = px;
                proof {
                    lemma_encode_eq(pv0, av0, rv0, prem);
                    if rv0 + 1 == 62 {
                        assert(output@.skip(out0.len() as int) =~= outd + spec_flush(62));
                        assert(output@.take(out0.len() as int) =~= out0);
                    } else {
                        assert(output@.skip(out0.len() as int) =~= outd + Seq::<u8>::empty());
                    }
                    let emitted: Seq<u8> = if rv0 + 1 == 62 { spec_flush(62) }
                        else { Seq::empty() };
                    let t2 = spec_encode_some(self.prev, self.array@, self.run as int,
                        pixels@.skip(i + 1));
                    assert(outd + (emitted + t2.0) =~= (outd + emitted) + t2.0);
                }
            } else {
                let ghost flushed = spec_flush(rv0);
                if self.run != 0 {
                    output.push(0xc0 | (self.run as u8 - 1));
                    self.run = 0;
                }
                proof {
                    assert(output@.skip(out0.len() as int) =~= outd + flushed);
                    assert(output@.take(out0.len() as int) =~= out0);
                }
                let slot = self.array[h as usize];
                push_op(output, self.prev, slot, px);
                self.prev = px;
                self.array[h as usize] = px;
                proof {
                    lemma_encode_neq(pv0, av0, rv0, prem);
                    let op = spec_encode_op(pv0, av0[spec_hash(px) as int], px);
                    assert(output@.skip(out0.len() as int) =~= (outd + flushed) + op);
                    assert(output@.take(out0.len() as int) =~= out0);
                    let t2 = spec_encode_some(self.prev, self.array@, self.run as int,
                        pixels@.skip(i + 1));
                    assert(outd + ((flushed + op) + t2.0) =~= ((outd + flushed) + op) + t2.0);
                }
            }
            i = i + 1;
        }
        proof {
            assert(pixels@.skip(pixels@.len() as int) =~= Seq::<Pixel>::empty());
            lemma_encode_done(self.prev, self.array@, self.run as int);
            let t = spec_encode_some(p0, a0, r0, pixels@);
            assert(output@.skip(out0.len() as int) + Seq::<u8>::empty()
                =~= output@.skip(out0.len() as int));
            assert(output@ =~= output@.take(out0.len() as int)
                + output@.skip(out0.len() as int));
        }
        Ok(())
    }
}

/// Channel count and colour space of an encoded file.
#[derive(Debug, Clone, Copy, PartialEq, Eq, Structural)]
pub enum ColorSpec {
    Srgb8,
    Srgb8A8,
    Rgb8,
    Rgba8,
}

impl ColorSpec {
    /// The 16-bit code this colour spec is stored as.
    pub open spec fn spec_code(self) -> u16 {
        match self {
            ColorSpec::Srgb8 => 0x0003,
            ColorSpec::Srgb8A8 => 0x0004,
            ColorSpec::Rgb8 => 0x0103,
            ColorSpec::Rgba8 => 0x0104,
        }
    }

    pub fn code(self) -> (r: u16)
        ensures
            r == self.spec_code(),
    {
        match self {
            ColorSpec::Srgb8 => 0x0003,
            ColorSpec::Srgb8A8 => 0x0004,
            ColorSpec::Rgb8 => 0x0103,
            ColorSpec::Rgba8 => 0x0104,
        }
    }

    /// The colour spec a 16-bit code denotes, if any.
    pub open spec fn spec_from_code(code: u16) -> Option<ColorSpec> {
        if code == 0x0003 { Some(ColorSpec::Srgb8) }
        else if code == 0x0004 { Some(ColorSpec::Srgb8A8) }
        else if code == 0x0103 { Some(ColorSpec::Rgb8) }
        else if code == 0x0104 { Some(ColorSpec::Rgba8) }
        else { None }
    }

    pub fn from_code(code: u16) -> (r: Option<ColorSpec>)
        ensures
            r == ColorSpec::spec_from_code(code),
    {
        if code == 0x0003 { Some(ColorSpec::Srgb8) }
        else if code == 0x0004 { Some(ColorSpec::Srgb8A8) }
        else if code == 0x0103 { Some(ColorSpec::Rgb8) }
        else if code == 0x0104 { Some(ColorSpec::Rgba8) }
        else { None }
    }
}

/// An encoded file's header: magic, big-endian dimensions, and a
/// little-endian colour-spec code.
#[derive(Debug, Clone, Copy, PartialEq, Eq, Structural)]
pub struct Header {
    pub wide: u32,
    pub high: u32,
    pub colors: ColorSpec,
}

#[derive(Debug, Clone, Copy, PartialEq, Eq, Structural)]
pub enum HeaderError {
    /// The magic bytes are not `qoif`.
    WrongMagic,
    /// Either stored dimension is zero.
    ZeroDimension,
    /// The colour-spec code denotes no colour spec.
    BadColorSpec,
}

/// The 14 bytes a header serialises to.
pub open spec fn spec_header_bytes(h: Header) -> Seq<u8> {
    seq![
        0x71u8, 0x6fu8, 0x69u8, 0x66u8,
        (h.wide >> 24) as u8, (h.wide >> 16) as u8, (h.wide >> 8) as u8, h.wide as u8,
        (h.high >> 24) as u8, (h.high >> 16) as u8, (h.high >> 8) as u8, h.high as u8,
        h.colors.spec_code() as u8, (h.colors.spec_code() >> 8) as u8,
    ]
}

/// What parsing 14 header bytes yields.
pub open spec fn spec_parse_header(bs: Seq<u8>) -> Result<Header, HeaderError> {
    if bs[0] != 0x71 || bs[1] != 0x6f || bs[2] != 0x69 || bs[3] != 0x66 {
        Err(HeaderError::WrongMagic)
    } else {
        let wide = spec_u32_be(bs, 4);
        let high = spec_u32_be(bs, 8);
        if wide == 0 || high == 0 {
            Err(HeaderError::ZeroDimension)
        } else {
            let code = (bs[12] + 0x100 * bs[13]) as u16;
            match ColorSpec::spec_from_code(code) {
                None => Err(HeaderError::BadColorSpec),
                Some(colors) => Ok(Header { wide: wide as u32, high: high as u32, colors }),
            }
        }
    }
}

/// Big-endian 32-bit value at byte offset `i`.
pub open spec fn spec_u32_be(bs: Seq<u8>, i: int) -> int {
    0x100_0000 * bs[i] + 0x1_0000 * bs[i + 1] + 0x100 * bs[i + 2] + bs[i + 3]
}

impl Header {
    pub fn to_bytes(&self) -> (r: [u8; 14])
        ensures
            r@ == spec_header_bytes(*self),
    {
        let mut buf = [0u8; 14];
        buf[0] = 0x71;
        buf[1] = 0x6f;
        buf[2] = 0x69;
        buf[3] = 0x66;
        buf[4] = (self.wide >> 24) as u8;
        buf[5] = (self.wide >> 16) as u8;
        buf[6] = (self.wide >> 8) as u8;
        buf[7] = self.wide as u8;
        buf[8] = (self.high >> 24) as u8;
        buf[9] = (self.high >> 16) as u8;
        buf[10] = (self.high >> 8) as u8;
        buf[11] = self.high as u8;
        let code = self.colors.code();
        buf[12] = code as u8;
        buf[13] = (code >> 8) as u8;
        proof {
            assert(buf@ =~= spec_header_bytes(*self));
        }
        buf
    }

    pub fn from_bytes(bytes: [u8; 14]) -> (r: Result<Header, HeaderError>)
        ensures
            r == spec_parse_header(bytes@),
    {
        if bytes[0] != 0x71 || bytes[1] != 0x6f || bytes[2] != 0x69 || bytes[3] != 0x66 {
            return Err(HeaderError::WrongMagic);
        }
        let wide = ((bytes[4] as u32) << 24) | ((bytes[5] as u32) << 16)
            | ((bytes[6] as u32) << 8) | (bytes[7] as u32);
        let high = ((bytes[8] as u32) << 24) | ((bytes[9] as u32) << 16)
            | ((bytes[10] as u32) << 8) | (bytes[11] as u32);
        proof {
            let b4 = bytes[4];
            let b5 = bytes[5];
            let b6 = bytes[6];
            let b7 = bytes[7];
            assert(((b4 as u32) << 24) | ((b5 as u32) << 16) | ((b6 as u32) << 8) | (b7 as u32)
                == 0x100_0000u32 * (b4 as u32) + 0x1_0000u32 * (b5 as u32)
                    + 0x100u32 * (b6 as u32) + (b7 as u32)) by (bit_vector);
            let b8 = bytes[8];
            let b9 = bytes[9];
            let b10 = bytes[10];
            let b11 = bytes[11];
            assert(((b8 as u32) << 24) | ((b9 as u32) << 16) | ((b10 as u32) << 8) | (b11 as u32)
                == 0x100_0000u32 * (b8 as u32) + 0x1_0000u32 * (b9 as u32)
                    + 0x100u32 * (b10 as u32) + (b11 as u32)) by (bit_vector);
        }
        if wide == 0 || high == 0 {
            return Err(HeaderError::ZeroDimension);
        }
        let code = (bytes[12] as u16) + 0x100 * (bytes[13] as u16);
        match ColorSpec::from_code(code) {
            None => Err(HeaderError::BadColorSpec),
            Some(colors) => Ok(Header { wide, high, colors }),
        }
    }
}

#[derive(Debug, Clone, Copy, PartialEq, Eq, Structural)]
pub enum FileError {
    Decode(DecodeError),
    Encode(EncodeError),
    Header(HeaderError),
    /// Too short to hold a header, one opcode and the trailing padding.
    InputTooShort,
    /// The stored dimensions multiply beyond what memory can address.
    TooLarge,
    /// The stream is not followed by exactly the 8 padding bytes.
    BadPadding,
}

/// The 8 padding bytes that close an encoded file.
pub open spec fn spec_padding() -> Seq<u8> {
    seq![0u8, 0u8, 0u8, 0u8, 0u8, 0u8, 0u8, 1u8]
}

/// What decoding a whole file yields: its header and its pixels, which
/// must be followed by exactly the 8-byte padding.
pub open spec fn spec_decode_qoi_file(bytes: Seq<u8>) -> Result<(Header, Seq<Pixel>), FileError> {
    if bytes.len() < 14 + 1 + 8 {
        Err(FileError::InputTooShort)
    } else {
        match spec_parse_header(bytes.take(14)) {
            Err(e) => Err(FileError::Header(e)),
            Ok(h) => {
                let n = h.wide * h.high;
                if n > usize::MAX {
                    Err(FileError::TooLarge)
                } else {
                    match spec_decode([0u8, 0u8, 0u8, 255u8],
                        Seq::new(64, |i: int| [0u8, 0u8, 0u8, 0u8]), 0,
                        bytes.skip(14), n as nat) {
                        None => Err(FileError::Decode(DecodeError::Underrun)),
                        Some(step) => {
                            if bytes.skip(14).skip(step.4) =~= spec_padding() {
                                Ok((h, step.0))
                            } else {
                                Err(FileError::BadPadding)
                            }
                        },
                    }
                }
            },
        }
    }
}

/// Decode a whole encoded file: header, pixels, and padding check.
pub fn decode_qoi_file(bytes: &[u8]) -> (r: Result<(Header, Vec<Pixel>), FileError>)
    ensures
        match (r, spec_decode_qoi_file(bytes@)) {
            (Ok(v), Ok(s)) => v.0 == s.0 && v.1@ == s.1,
            (Err(e1), Err(e2)) => e1 == e2,
            _ => false,
        },
{
    if bytes.len() < 14 + 1 + 8 {
        return Err(FileError::InputTooShort);
    }
    let hb = [bytes[0], bytes[1], bytes[2], bytes[3], bytes[4], bytes[5], bytes[6],
        bytes[7], bytes[8], bytes[9], bytes[10], bytes[11], bytes[12], bytes[13]];
    proof {
        assert(hb@ =~= bytes@.take(14));
    }
    let header = match Header::from_bytes(hb) {
        Ok(h) => h,
        Err(e) => { return Err(FileError::Header(e)); },
    };
    let n = match (header.wide as usize).checked_mul(header.high as usize) {
        Some(v) => v,
        None => { return Err(FileError::TooLarge); },
    };
    let mut state = State::new();
    let body = &bytes[14..bytes.len()];
    proof {
        assert(body@ =~= bytes@.skip(14));
    }
    let (pixels, used) = match state.decode_some(n, body) {
        Ok(v) => v,
        Err(e) => { return Err(FileError::Decode(e)); },
    };
    if body.len() - used != 8 {
        proof {
            assert(body@.skip(used as int).len() != 8);
        }
        return Err(FileError::BadPadding);
    }
    let pad_ok = body[used] == 0 && body[used + 1] == 0 && body[used + 2] == 0
        && body[used + 3] == 0 && body[used + 4] == 0 && body[used + 5] == 0
        && body[used + 6] == 0 && body[used + 7] == 1;
    if !pad_ok {
        proof {
            assert(!(body@.skip(used as int) =~= spec_padding()));
        }
        return Err(FileError::BadPadding);
    }
    proof {
        assert(body@.skip(used as int) =~= spec_padding());
    }
    Ok((header, pixels))
}

/// What encoding a whole file emits: header bytes, the encoded pixel
/// stream with its final run flushed, then the padding.
pub open spec fn spec_encode_qoi_file(h: Header, pixels: Seq<Pixel>) -> Seq<u8> {
    let t = spec_encode_some([0u8, 0u8, 0u8, 255u8],
        Seq::new(64, |i: int| [0u8, 0u8, 0u8, 0u8]), 0, pixels);
    spec_header_bytes(h) + t.0 + spec_flush(t.3) + spec_padding()
}

/// Encode a whole file.
pub fn encode_qoi_file(header: Header, pixels: &[Pixel]) -> (r: Result<Vec<u8>, FileError>)
    ensures
        match r {
            Ok(v) => v@ == spec_encode_qoi_file(header, pixels@),
            Err(_) => false,
        },
{
    let mut bytes: Vec<u8> = Vec::new();
    let hb = header.to_bytes();
    let mut i: usize = 0;
    while i < 14
        invariant
            i <= 14,
            bytes@ == hb@.take(i as int),
            hb@ == spec_header_bytes(header),
        decreases 14 - i,
    {
        bytes.push(hb[i]);
        proof {
            assert(bytes@ =~= hb@.take(i + 1));
        }
        i = i + 1;
    }
    proof {
        assert(bytes@ =~= spec_header_bytes(header));
    }
    let ghost after_header = bytes@;
    let mut state = State::new();
    match state.encode_some(&mut bytes, pixels) {
        Ok(_) => {},
        Err(e) => { return Err(FileError::Encode(e)); },
    }
    let ghost after_body = bytes@;
    match state.encode_flush(&mut bytes) {
        Ok(_) => {},
        Err(e) => { return Err(FileError::Encode(e)); },
    }
    bytes.push(0);
    bytes.push(0);
    bytes.push(0);
    bytes.push(0);
    bytes.push(0);
    bytes.push(0);
    bytes.push(0);
    bytes.push(1);
    proof {
        let t = spec_encode_some([0u8, 0u8, 0u8, 255u8],
            Seq::new(64, |i: int| [0u8, 0u8, 0u8, 0u8]), 0, pixels@);
        assert(bytes@ =~= spec_header_bytes(header) + t.0 + spec_flush(t.3) + spec_padding());
    }
    Ok(bytes)
}

} // verus!
