//! Texture atlas construction: place every source raster (plus one
//! synthetic 1x1 opaque-white swatch for untextured draws) into one
//! shared raster, with a fixed border apron around each placement so
//! bilinear filtering and mip reduction never bleed between
//! neighbours.
//!
//! Placement uses a shelf packer over a fixed maximum canvas; running
//! out of room is a fatal build error, never silently degraded. The
//! atlas raster is the bounding box over all placements rounded up to
//! the mip alignment, never thinner in either axis than the largest
//! padded source, and its background is an alternating two-colour
//! checkerboard at the same pitch so uncovered texels are visually
//! obvious.

use vstd::prelude::*;
use crate::pixmap::{Pixmap, Rgba};
use crate::util::UNorm16;

verus! {

pub const N_REDUCTIONS: usize = 4;

/// The apron width and the alignment pitch: one texel per mip level.
pub const ALIGN: i32 = 16;

/// The packer's maximum canvas, generous enough for every known set.
pub const MAX_CANVAS: i32 = 1536;

#[derive(Debug, Clone, Copy, PartialEq, Eq, Structural)]
pub enum AtlasError {
    /// A source raster, once padded, exceeds the maximum canvas.
    ImageTooLarge,
    /// The canvas has no room left for a placement.
    Full,
}

/// Do two rectangles `[x0, y0, x1, y1]` occupy no common area?
pub open spec fn rects_disjoint(a: [i32; 4], b: [i32; 4]) -> bool {
    ||| a[2] <= b[0]
    ||| b[2] <= a[0]
    ||| a[3] <= b[1]
    ||| b[3] <= a[1]
}

/// A rectangle grown by the apron on all sides.
pub open spec fn spec_pad(r: [i32; 4]) -> [i32; 4] {
    [(r[0] - ALIGN) as i32, (r[1] - ALIGN) as i32, (r[2] + ALIGN) as i32, (r[3] + ALIGN) as i32]
}

/// One placement step of a shelf run over the packer state
/// `(cursor x, shelf top, shelf height)`: close the shelf when the
/// rectangle does not fit beside the cursor, fail when it does not fit
/// above the canvas bottom either, else hand out the rectangle and
/// advance.
pub open spec fn spec_place_step(st: (int, int, int), w: int, h: int)
    -> Option<((int, int, int), [i32; 4])>
{
    let st1: (int, int, int) = if st.0 + w > MAX_CANVAS {
        (0, st.1 + st.2, 0)
    } else {
        st
    };
    if st1.1 + h > MAX_CANVAS {
        None
    } else {
        Some((
            (st1.0 + w, st1.1, if h > st1.2 { h } else { st1.2 }),
            [st1.0 as i32, st1.1 as i32, (st1.0 + w) as i32, (st1.1 + h) as i32],
        ))
    }
}

/// A shelf packer: placements fill the current shelf left to right;
/// when a rectangle does not fit, the shelf closes and a new one opens
/// beneath it.
pub struct ShelfPacker {
    pub cur_x: i32,
    pub cur_y: i32,
    pub shelf_h: i32,
}

impl ShelfPacker {
    pub open spec fn wf(self) -> bool {
        &&& 0 <= self.cur_x <= MAX_CANVAS
        &&& 0 <= self.cur_y
        &&& 0 <= self.shelf_h
        &&& self.cur_y + self.shelf_h <= MAX_CANVAS
    }

    /// The region a rectangle handed out earlier can lie in: fully
    /// above the current shelf, or on the current shelf to the left of
    /// the cursor and no taller than the shelf.
    pub open spec fn older(self, r: [i32; 4]) -> bool {
        ||| r[3] <= self.cur_y
        ||| (r[1] == self.cur_y && r[2] <= self.cur_x && r[3] <= self.cur_y + self.shelf_h)
    }

    /// The packer's state as a value: cursor x, shelf top, shelf height.
    pub open spec fn state(self) -> (int, int, int) {
        (self.cur_x as int, self.cur_y as int, self.shelf_h as int)
    }

    pub fn new() -> (p: ShelfPacker)
        ensures
            p.wf(),
            p.state() == (0int, 0int, 0int),
    {
        ShelfPacker { cur_x: 0, cur_y: 0, shelf_h: 0 }
    }

    /// Place a `w` x `h` rectangle, exactly as `spec_place_step` says.
    /// The result is inside the canvas, does not intersect any
    /// rectangle handed out earlier, and those stay "older" for the
    /// new state; `None` exactly when no shelf can take the rectangle.
    pub fn place(&mut self, w: i32, h: i32) -> (r: Option<[i32; 4]>)
        requires
            old(self).wf(),
            1 <= w <= MAX_CANVAS,
            1 <= h <= MAX_CANVAS,
        ensures
            final(self).wf(),
            forall|q: [i32; 4]| old(self).older(q) ==> final(self).older(q),
            match r {
                Some(rect) => {
                    &&& spec_place_step(old(self).state(), w as int, h as int)
                        == Some((final(self).state(), rect))
                    &&& rect[0] + w == rect[2]
                    &&& rect[1] + h == rect[3]
                    &&& 0 <= rect[0]
                    &&& 0 <= rect[1]
                    &&& rect[2] <= MAX_CANVAS
                    &&& rect[3] <= MAX_CANVAS
                    &&& final(self).older(rect)
                    &&& forall|q: [i32; 4]| old(self).older(q) ==> rects_disjoint(q, rect)
                },
                None => spec_place_step(old(self).state(), w as int, h as int) is None,
            },
    {
        let ghost pre = *old(self);
        if self.cur_x + w > MAX_CANVAS {
            // close the shelf and open a new one beneath it
            self.cur_y = self.cur_y + self.shelf_h;
            self.cur_x = 0;
            self.shelf_h = 0;
        }
        if h > MAX_CANVAS - self.cur_y {
            return None;
        }
        let rect = [self.cur_x, self.cur_y, self.cur_x + w, self.cur_y + h];
        self.cur_x = self.cur_x + w;
        if h > self.shelf_h {
            self.shelf_h = h;
        }
        Some(rect)
    }
}

/// `v` clamped into `[0, m]`.
pub open spec fn spec_clamp(v: int, m: int) -> int {
    if v < 0 { 0 } else if v > m { m } else { v }
}

fn clamp(v: i32, m: i32) -> (r: i32)
    requires
        m >= 0,
    ensures
        r == spec_clamp(v as int, m as int),
{
    if v < 0 { 0 } else if v > m { m } else { v }
}

/// The debug checkerboard colour at `(x, y)`: squares of the apron
/// pitch, alternating between two colours.
pub open spec fn spec_checker(x: int, y: int, a: Rgba, b: Rgba) -> Rgba {
    if ((x / (ALIGN as int)) + (y / (ALIGN as int))) % 2 == 0 { a } else { b }
}

/// A fresh raster filled with the debug checkerboard.
#[verifier::loop_isolation(false)]
fn checkerboard(w: i32, h: i32, a: Rgba, b: Rgba) -> (r: Pixmap)
    requires
        1 <= w <= 0x8000,
        1 <= h <= 0x8000,
    ensures
        r.wf(),
        r.meta.wide == w,
        r.meta.high == h,
        r.meta.offset == 0,
        r.meta.pitch == w,
        forall|x: int, y: int| 0 <= x < w && 0 <= y < h
            ==> r.spec_get(x, y) == spec_checker(x, y, a, b),
{
    proof {
        assert((w as int) * (h as int) <= 0x8000 * 0x8000) by (nonlinear_arith)
            requires 1 <= w <= 0x8000, 1 <= h <= 0x8000;
    }
    let mut pm = Pixmap::new(w, h, a);
    let mut y: i32 = 0;
    while y < h
        invariant
            0 <= y <= h,
            pm.wf(),
            pm.meta == atlas_meta(w, h),
            forall|px: int, py: int| 0 <= px < w && 0 <= py < y
                ==> pm.spec_get(px, py) == spec_checker(px, py, a, b),
        decreases h - y,
    {
        let mut x: i32 = 0;
        while x < w
            invariant
                0 <= x <= w,
                0 <= y < h,
                pm.wf(),
                pm.meta == atlas_meta(w, h),
                forall|px: int, py: int| 0 <= px < w && 0 <= py < y
                    ==> pm.spec_get(px, py) == spec_checker(px, py, a, b),
                forall|px: int| 0 <= px < x
                    ==> pm.spec_get(px, y as int) == spec_checker(px, y as int, a, b),
            decreases w - x,
        {
            let q = ((x / ALIGN) + (y / ALIGN)) % 2 == 0;
            pm.put([x, y], if q { a } else { b });
            x = x + 1;
        }
        y = y + 1;
    }
    pm
}

/// The layout every atlas raster uses: contiguous rows from offset 0.
pub open spec fn atlas_meta(w: i32, h: i32) -> crate::pixmap::Meta {
    crate::pixmap::Meta { offset: 0, pitch: w as usize, wide: w as usize, high: h as usize }
}

/// Blit `src` into the rectangle `rect` of `dst`, with the border
/// filled by clamped-edge repetition of the source's own boundary
/// pixels, so apron texels are a smooth edge extension.
#[verifier::rlimit(100)]
#[verifier::spinoff_prover]
#[verifier::loop_isolation(false)]
fn blit_with_apron(dst: &mut Pixmap, rect: [i32; 4], src: &Pixmap)
    requires
        old(dst).wf(),
        src.wf(),
        1 <= src.meta.wide,
        1 <= src.meta.high,
        0 <= rect[0],
        0 <= rect[1],
        rect[0] + src.meta.wide + 2 * ALIGN == rect[2],
        rect[1] + src.meta.high + 2 * ALIGN == rect[3],
        rect[2] <= old(dst).meta.wide,
        rect[3] <= old(dst).meta.high,
    ensures
        final(dst).wf(),
        final(dst).meta == old(dst).meta,
        forall|x: int, y: int| rect[0] <= x < rect[2] && rect[1] <= y < rect[3]
            ==> final(dst).spec_get(x, y) == src.spec_get(
                spec_clamp(x - rect[0] - ALIGN, src.meta.wide - 1),
                spec_clamp(y - rect[1] - ALIGN, src.meta.high - 1)),
        forall|x: int, y: int| 0 <= x < old(dst).meta.wide && 0 <= y < old(dst).meta.high
            && !(rect[0] <= x < rect[2] && rect[1] <= y < rect[3])
            ==> final(dst).spec_get(x, y) == old(dst).spec_get(x, y),
{
    let sw = src.wide();
    let sh = src.high();
    let w = sw + 2 * ALIGN;
    let h = sh + 2 * ALIGN;
    let mut dy: i32 = 0;
    while dy < h
        invariant
            0 <= dy <= h,
            dst.wf(),
            dst.meta == old(dst).meta,
            forall|x: int, y: int| rect[0] <= x < rect[2] && rect[1] <= y < rect[1] + dy
                ==> dst.spec_get(x, y) == src.spec_get(
                    spec_clamp(x - rect[0] - ALIGN, src.meta.wide - 1),
                    spec_clamp(y - rect[1] - ALIGN, src.meta.high - 1)),
            forall|x: int, y: int| 0 <= x < old(dst).meta.wide && 0 <= y < old(dst).meta.high
                && !(rect[0] <= x < rect[2] && rect[1] <= y < rect[1] + dy)
                ==> dst.spec_get(x, y) == old(dst).spec_get(x, y),
        decreases h - dy,
    {
        let mut dx: i32 = 0;
        while dx < w
            invariant
                0 <= dx <= w,
                0 <= dy < h,
                dst.wf(),
                dst.meta == old(dst).meta,
                forall|x: int, y: int| rect[0] <= x < rect[2] && rect[1] <= y < rect[1] + dy
                    ==> dst.spec_get(x, y) == src.spec_get(
                        spec_clamp(x - rect[0] - ALIGN, src.meta.wide - 1),
                        spec_clamp(y - rect[1] - ALIGN, src.meta.high - 1)),
                forall|x: int| rect[0] <= x < rect[0] + dx
                    ==> #[trigger] dst.spec_get(x, rect[1] + dy) == src.spec_get(
                        spec_clamp(x - rect[0] - ALIGN, src.meta.wide - 1),
                        spec_clamp(rect[1] + dy - rect[1] - ALIGN, src.meta.high - 1)),
                forall|x: int, y: int| 0 <= x < old(dst).meta.wide
                    && 0 <= y < old(dst).meta.high
                    && !(rect[0] <= x < rect[2] && rect[1] <= y < rect[1] + dy + 1)
                    ==> dst.spec_get(x, y) == old(dst).spec_get(x, y),
            decreases w - dx,
        {
            let sx = clamp(dx - ALIGN, sw - 1);
            let sy = clamp(dy - ALIGN, sh - 1);
            let px = match src.get([sx, sy]) {
                Some(p) => p,
                None => { return; },
            };
            dst.put([rect[0] + dx, rect[1] + dy], px);
            dx = dx + 1;
        }
        dy = dy + 1;
    }
}

/// The packed atlas's lookup table: per-source inner rectangles (the
/// synthetic white swatch last) and the atlas dimensions every lookup
/// is scaled by.
pub struct Atlas {
    pub wide: i32,
    pub high: i32,
    pub uivis: Vec<[i32; 4]>,
}

impl Atlas {
    /// Every stored rectangle lies inside the atlas, so every scaled
    /// lookup lands in `[0, 1]`.
    pub open spec fn wf(self) -> bool {
        &&& 1 <= self.wide <= MAX_CANVAS
        &&& 1 <= self.high <= MAX_CANVAS
        &&& self.uivis@.len() >= 1
        &&& forall|i: int| 0 <= i < self.uivis@.len()
            ==> 0 <= (#[trigger] self.uivis@[i])[0] <= self.uivis@[i][2] <= self.wide
                && 0 <= self.uivis@[i][1] <= self.uivis@[i][3] <= self.high
    }

    /// A coordinate scaled by the reciprocal atlas dimension, as a
    /// fraction of one; values outside the atlas clamp to the edges.
    pub open spec fn spec_scale(a: int, d: int) -> UNorm16 {
        if a <= 0 {
            UNorm16(0)
        } else if a >= d {
            UNorm16(0xffff)
        } else {
            UNorm16((a * 0xffff / d) as u16)
        }
    }

    /// The white swatch's rectangle, for untextured draws.
    pub fn no_texture(&self) -> (r: [UNorm16; 4])
        requires
            self.wf(),
        ensures
            r == self.spec_lookup_rect(self.uivis@.len() - 1),
    {
        self.lookup_rect(self.uivis.len() - 1)
    }

    /// The scaled corners of source rectangle `index`.
    pub open spec fn spec_lookup_rect(self, index: int) -> [UNorm16; 4] {
        let r = self.uivis@[index];
        [
            Atlas::spec_scale(r[0] as int, self.wide as int),
            Atlas::spec_scale(r[1] as int, self.high as int),
            Atlas::spec_scale(r[2] as int, self.wide as int),
            Atlas::spec_scale(r[3] as int, self.high as int),
        ]
    }

    pub fn lookup_rect(&self, index: usize) -> (r: [UNorm16; 4])
        requires
            self.wf(),
            index < self.uivis@.len(),
        ensures
            r == self.spec_lookup_rect(index as int),
    {
        let rect = self.uivis[index];
        [
            scale(rect[0], self.wide),
            scale(rect[1], self.high),
            scale(rect[2], self.wide),
            scale(rect[3], self.high),
        ]
    }

    /// The scaled position of `index`'s origin plus a per-vertex
    /// sub-texel offset taken straight from the geometry format.
    pub fn lookup(&self, index: usize, offset: [u8; 2]) -> (r: [UNorm16; 2])
        requires
            self.wf(),
            index < self.uivis@.len(),
        ensures
            r@ =~= seq![
                Atlas::spec_scale(self.uivis@[index as int][0] + offset[0], self.wide as int),
                Atlas::spec_scale(self.uivis@[index as int][1] + offset[1], self.high as int),
            ],
    {
        let rect = self.uivis[index];
        [
            scale(rect[0] + offset[0] as i32, self.wide),
            scale(rect[1] + offset[1] as i32, self.high),
        ]
    }
}

fn scale(a: i32, d: i32) -> (r: UNorm16)
    requires
        1 <= d,
        a < 0x10_0000,
    ensures
        r == Atlas::spec_scale(a as int, d as int),
{
    if a <= 0 {
        UNorm16(0)
    } else if a >= d {
        UNorm16(0xffff)
    } else {
        let v = (a as u64) * 0xffff / (d as u64);
        proof {
            assert((a as int) * 0xffff / (d as int) < 0xffff) by (nonlinear_arith)
                requires 0 < a < d;
            assert((a as int) * 0xffff / (d as int) >= 0) by (nonlinear_arith)
                requires 0 < a, 0 < d;
        }
        UNorm16(v as u16)
    }
}

/// Does the placement order contain source `v`?
pub open spec fn in_order(order: Seq<usize>, v: int) -> bool {
    exists|k: int| 0 <= k < order.len() && #[trigger] order[k] == v
}

/// The width of source `i`: a real raster's, or the white swatch's.
pub open spec fn spec_src_wide(pms: Seq<Pixmap>, i: int) -> int {
    if i < pms.len() { pms[i].meta.wide as int } else { 1 }
}

/// The height of source `i`: a real raster's, or the white swatch's.
pub open spec fn spec_src_high(pms: Seq<Pixmap>, i: int) -> int {
    if i < pms.len() { pms[i].meta.high as int } else { 1 }
}

/// The least multiple of the alignment pitch that is at least `x`.
pub open spec fn spec_align_up(x: int) -> int {
    if x % (ALIGN as int) == 0 {
        x
    } else {
        x + ALIGN - x % (ALIGN as int)
    }
}

/// Round up to the next multiple of the alignment pitch.
fn roundup_align(x: i32) -> (r: i32)
    requires
        1 <= x <= MAX_CANVAS,
    ensures
        r as int == spec_align_up(x as int),
        1 <= x <= r <= MAX_CANVAS,
        r < x + ALIGN,
        (r as int) % (ALIGN as int) == 0,
{
    let rem = x % ALIGN;
    if rem == 0 {
        x
    } else {
        proof {
            vstd::arithmetic::div_mod::lemma_fundamental_div_mod(x as int, ALIGN as int);
            let q = (x as int) / (ALIGN as int);
            assert((x as int) - rem + ALIGN == (q + 1) * (ALIGN as int)) by (nonlinear_arith)
                requires (x as int) == (ALIGN as int) * q + rem;
            vstd::arithmetic::div_mod::lemma_mod_multiples_basic(q + 1, ALIGN as int);
            assert((x as int) + (ALIGN as int) <= MAX_CANVAS + ALIGN);
            assert(((x as int) - rem + ALIGN) % (ALIGN as int) == 0);
            assert((MAX_CANVAS as int) % (ALIGN as int) == 0);
            assert((x as int) - rem + ALIGN <= MAX_CANVAS) by {
                if (x as int) - rem + ALIGN > MAX_CANVAS {
                    assert((x as int) - rem == MAX_CANVAS - ALIGN + (ALIGN - rem) + rem - rem);
                    assert((x as int) - rem > MAX_CANVAS - ALIGN);
                    assert((x as int) - rem < MAX_CANVAS + ALIGN);
                    vstd::arithmetic::div_mod::lemma_mod_multiples_vanish(
                        ((x as int) - rem) / (ALIGN as int), 0, ALIGN as int);
                }
            }
        }
        x - rem + ALIGN
    }
}

/// The padded width of source `i`: its raster plus the apron.
pub open spec fn spec_pad_w(pms: Seq<Pixmap>, i: int) -> int {
    spec_src_wide(pms, i) + 2 * ALIGN
}

/// The padded height of source `i`: its raster plus the apron.
pub open spec fn spec_pad_h(pms: Seq<Pixmap>, i: int) -> int {
    spec_src_high(pms, i) + 2 * ALIGN
}

/// The sort key of source `i`: its longer padded side first, then its
/// shorter one, so placement goes largest first.
pub open spec fn spec_key(pms: Seq<Pixmap>, i: int) -> int {
    let w = spec_pad_w(pms, i);
    let h = spec_pad_h(pms, i);
    let big = if w >= h { w } else { h };
    let small = if w >= h { h } else { w };
    0x10000 * big + small
}

/// Where source `p` lands in an existing order: before the first
/// source with a strictly smaller key, so equal keys keep their
/// earlier-first order.
pub open spec fn spec_ins_pos(pms: Seq<Pixmap>, order: Seq<usize>, p: int) -> int
    decreases order.len(),
{
    if order.len() == 0 {
        0
    } else if spec_key(pms, order[0] as int) < spec_key(pms, p) {
        0
    } else {
        1 + spec_ins_pos(pms, order.drop_first(), p)
    }
}

/// The placement order of sources `0 .. n`: each inserted in turn at
/// its key's position.
#[verifier::opaque]
pub open spec fn spec_order(pms: Seq<Pixmap>, n: int) -> Seq<usize>
    decreases n,
{
    if n <= 0 {
        Seq::empty()
    } else {
        let prev = spec_order(pms, n - 1);
        prev.insert(spec_ins_pos(pms, prev, n - 1), (n - 1) as usize)
    }
}

proof fn lemma_ins_pos(pms: Seq<Pixmap>, order: Seq<usize>, p: int, q: int)
    requires
        0 <= q <= order.len(),
        forall|i: int| 0 <= i < q
            ==> spec_key(pms, #[trigger] order[i] as int) >= spec_key(pms, p),
        q < order.len() ==> spec_key(pms, order[q] as int) < spec_key(pms, p),
    ensures
        spec_ins_pos(pms, order, p) == q,
    decreases order.len(),
{
    if order.len() == 0 {
    } else if spec_key(pms, order[0] as int) < spec_key(pms, p) {
        assert(q == 0) by {
            if q > 0 {
                assert(spec_key(pms, order[0] as int) >= spec_key(pms, p));
            }
        }
    } else {
        assert(q >= 1);
        let rest = order.drop_first();
        assert forall|i: int| 0 <= i < q - 1
            implies spec_key(pms, #[trigger] rest[i] as int) >= spec_key(pms, p) by {
            assert(rest[i] == order[i + 1]);
        }
        if q - 1 < rest.len() {
            assert(rest[q - 1] == order[q as int]);
        }
        lemma_ins_pos(pms, rest, p, q - 1);
    }
}

/// A whole shelf run over the first `k` entries of the placement
/// order: the packer state it ends in and the largest right and bottom
/// placement edges seen, or `None` once any placement fails.
#[verifier::opaque]
pub open spec fn spec_run(pms: Seq<Pixmap>, order: Seq<usize>, k: int)
    -> Option<((int, int, int), int, int)>
    decreases k,
{
    if k <= 0 {
        Some(((0int, 0int, 0int), ALIGN as int, ALIGN as int))
    } else {
        match spec_run(pms, order, k - 1) {
            None => None,
            Some(run) => {
                let p = order[k - 1] as int;
                match spec_place_step(run.0, spec_pad_w(pms, p), spec_pad_h(pms, p)) {
                    None => None,
                    Some((st2, rect)) => Some((
                        st2,
                        if rect[2] > run.1 { rect[2] as int } else { run.1 },
                        if rect[3] > run.2 { rect[3] as int } else { run.2 },
                    )),
                }
            },
        }
    }
}

proof fn lemma_run_none(pms: Seq<Pixmap>, order: Seq<usize>, k: int, n: int)
    requires
        spec_run(pms, order, k) is None,
        k <= n,
    ensures
        spec_run(pms, order, n) is None,
    decreases n - k,
{
    reveal(spec_run);
    if k < n {
        lemma_run_none(pms, order, k, n - 1);
    }
}

proof fn lemma_order_zero(pms: Seq<Pixmap>)
    ensures
        spec_order(pms, 0) == Seq::<usize>::empty(),
{
    reveal(spec_order);
}

proof fn lemma_order_unfold(pms: Seq<Pixmap>, n: int)
    requires
        n >= 1,
    ensures
        spec_order(pms, n) == ({
            let prev = spec_order(pms, n - 1);
            prev.insert(spec_ins_pos(pms, prev, n - 1), (n - 1) as usize)
        }),
{
    reveal(spec_order);
}

proof fn lemma_run_zero(pms: Seq<Pixmap>, order: Seq<usize>)
    ensures
        spec_run(pms, order, 0) == Some(((0int, 0int, 0int), ALIGN as int, ALIGN as int)),
{
    reveal(spec_run);
}

proof fn lemma_run_unfold(pms: Seq<Pixmap>, order: Seq<usize>, k: int)
    requires
        k >= 1,
    ensures
        spec_run(pms, order, k) == (match spec_run(pms, order, k - 1) {
            None => None::<((int, int, int), int, int)>,
            Some(run) => {
                let p = order[k - 1] as int;
                match spec_place_step(run.0, spec_pad_w(pms, p), spec_pad_h(pms, p)) {
                    None => None,
                    Some((st2, rect)) => Some((
                        st2,
                        if rect[2] > run.1 { rect[2] as int } else { run.1 },
                        if rect[3] > run.2 { rect[3] as int } else { run.2 },
                    )),
                }
            },
        }),
{
    reveal(spec_run);
}

proof fn lemma_ext_zero(pms: Seq<Pixmap>)
    ensures
        spec_max_extent(pms, 0) == 0,
{
    reveal(spec_max_extent);
}

proof fn lemma_ext_unfold(pms: Seq<Pixmap>, n: int)
    requires
        n >= 1,
    ensures
        spec_max_extent(pms, n) == ({
            let rest = spec_max_extent(pms, n - 1);
            let w = spec_pad_w(pms, n - 1);
            let h = spec_pad_h(pms, n - 1);
            let e = if w >= h { w } else { h };
            if e > rest { e } else { rest }
        }),
{
    reveal(spec_max_extent);
}

/// The largest padded side among sources `0 .. n`: the atlas is never
/// thinner than this in either axis.
#[verifier::opaque]
pub open spec fn spec_max_extent(pms: Seq<Pixmap>, n: int) -> int
    decreases n,
{
    if n <= 0 {
        0
    } else {
        let rest = spec_max_extent(pms, n - 1);
        let w = spec_pad_w(pms, n - 1);
        let h = spec_pad_h(pms, n - 1);
        let e = if w >= h { w } else { h };
        if e > rest { e } else { rest }
    }
}

impl Atlas {
    /// Pack every source raster plus the synthetic white swatch into
    /// one atlas raster. The returned lookup table has one inner
    /// rectangle per source, in source order, with the white swatch's
    /// appended last; no two placements (aprons included) overlap, and
    /// every placement, apron included, lies inside the atlas. The
    /// atlas dimensions are the aligned bounding box of the shelf run
    /// over the largest-first order, raised in either axis to the
    /// largest padded source extent; packing fails exactly when a
    /// padded source exceeds the canvas or the shelf run overflows it.
    #[verifier::rlimit(100)]
    #[verifier::spinoff_prover]
    #[verifier::loop_isolation(false)]
    pub fn build(pixmaps: &Vec<Pixmap>) -> (r: Result<(Pixmap, Atlas), AtlasError>)
        requires
            forall|i: int| 0 <= i < pixmaps@.len() ==> (#[trigger] pixmaps@[i]).wf(),
            forall|i: int| 0 <= i < pixmaps@.len()
                ==> 1 <= (#[trigger] pixmaps@[i]).meta.wide
                    && 1 <= pixmaps@[i].meta.high,
            pixmaps@.len() <= 0x10000,
        ensures
            match r {
                Ok(v) => {
                    let image = v.0;
                    let atlas = v.1;
                    let n = pixmaps@.len() as int;
                    &&& atlas.wf()
                    &&& atlas.uivis@.len() == n + 1
                    &&& (atlas.wide as int) % (ALIGN as int) == 0
                    &&& (atlas.high as int) % (ALIGN as int) == 0
                    &&& image.wf()
                    &&& image.meta.wide == atlas.wide
                    &&& image.meta.high == atlas.high
                    &&& image.meta.offset == 0
                    &&& image.meta.pitch == atlas.wide
                    &&& forall|i: int| 0 <= i <= n ==> {
                        let rect = #[trigger] atlas.uivis@[i];
                        &&& rect[2] - rect[0] == spec_src_wide(pixmaps@, i)
                        &&& rect[3] - rect[1] == spec_src_high(pixmaps@, i)
                        &&& ALIGN <= rect[0]
                        &&& ALIGN <= rect[1]
                        &&& rect[2] + ALIGN <= atlas.wide
                        &&& rect[3] + ALIGN <= atlas.high
                    }
                    &&& forall|i: int, j: int| 0 <= i <= n && 0 <= j <= n && i != j
                        ==> rects_disjoint(spec_pad(#[trigger] atlas.uivis@[i]),
                            spec_pad(#[trigger] atlas.uivis@[j]))
                    &&& forall|i: int, x: int, y: int| 0 <= i <= n
                        && 0 <= x < spec_src_wide(pixmaps@, i)
                        && 0 <= y < spec_src_high(pixmaps@, i)
                        ==> #[trigger] image.spec_get(atlas.uivis@[i][0] + x,
                                atlas.uivis@[i][1] + y)
                            == if i < n { pixmaps@[i].spec_get(x, y) }
                                else { Rgba([0xff, 0xff, 0xff, 0xff]) }
                    &&& ({
                        // the atlas is the aligned bounding box of the shelf
                        // run's placements, never thinner than the largest
                        // padded source in either axis
                        let ext = spec_max_extent(pixmaps@, n + 1);
                        match spec_run(pixmaps@, spec_order(pixmaps@, n + 1), n + 1) {
                            None => false,
                            Some(run) => {
                                &&& atlas.wide as int
                                    == spec_align_up(if ext > run.1 { ext } else { run.1 })
                                &&& atlas.high as int
                                    == spec_align_up(if ext > run.2 { ext } else { run.2 })
                            },
                        }
                    })
                    &&& atlas.wide as int >= spec_max_extent(pixmaps@, n + 1)
                    &&& atlas.high as int >= spec_max_extent(pixmaps@, n + 1)
                },
                Err(e) => {
                    let n = pixmaps@.len() as int;
                    ||| (e == AtlasError::ImageTooLarge && exists|i: int| 0 <= i < n
                        && ((#[trigger] pixmaps@[i]).meta.wide + 2 * ALIGN > MAX_CANVAS
                            || pixmaps@[i].meta.high + 2 * ALIGN > MAX_CANVAS))
                    ||| (e == AtlasError::Full
                        && (forall|i: int| 0 <= i < n
                            ==> (#[trigger] pixmaps@[i]).meta.wide + 2 * ALIGN <= MAX_CANVAS
                                && pixmaps@[i].meta.high + 2 * ALIGN <= MAX_CANVAS)
                        && spec_run(pixmaps@, spec_order(pixmaps@, n + 1), n + 1) is None)
                },
            },
    {
        let n = pixmaps.len();
        let total = n + 1;

        // no padded source may exceed the canvas
        let mut i: usize = 0;
        while i < n
            invariant
                i <= n,
                forall|j: int| 0 <= j < i
                    ==> (#[trigger] pixmaps@[j]).meta.wide + 2 * ALIGN <= MAX_CANVAS
                        && pixmaps@[j].meta.high + 2 * ALIGN <= MAX_CANVAS,
            decreases n - i,
        {
            let pm = &pixmaps[i];
            if pm.wide() > MAX_CANVAS - 2 * ALIGN || pm.high() > MAX_CANVAS - 2 * ALIGN {
                return Err(AtlasError::ImageTooLarge);
            }
            i = i + 1;
        }

        // padded dimensions, white swatch last
        let mut dims: Vec<[i32; 2]> = Vec::new();
        let mut i: usize = 0;
        while i < n
            invariant
                i <= n,
                dims@.len() == i,
                forall|j: int| 0 <= j < n
                    ==> (#[trigger] pixmaps@[j]).meta.wide + 2 * ALIGN <= MAX_CANVAS
                        && pixmaps@[j].meta.high + 2 * ALIGN <= MAX_CANVAS,
                forall|j: int| 0 <= j < i ==> #[trigger] dims@[j]
                    == [(spec_src_wide(pixmaps@, j) + 2 * ALIGN) as i32,
                        (spec_src_high(pixmaps@, j) + 2 * ALIGN) as i32],
            decreases n - i,
        {
            let pm = &pixmaps[i];
            dims.push([pm.wide() + 2 * ALIGN, pm.high() + 2 * ALIGN]);
            i = i + 1;
        }
        dims.push([1 + 2 * ALIGN, 1 + 2 * ALIGN]);

        // the largest padded side bounds the atlas from below
        let mut ext: i32 = 0;
        let mut i: usize = 0;
        proof {
            lemma_ext_zero(pixmaps@);
        }
        while i < total
            invariant
                i <= total,
                total == dims@.len(),
                total == n + 1,
                n == pixmaps@.len(),
                0 <= ext <= MAX_CANVAS,
                ext as int == spec_max_extent(pixmaps@, i as int),
                forall|j: int| 0 <= j < n
                    ==> (#[trigger] pixmaps@[j]).meta.wide + 2 * ALIGN <= MAX_CANVAS
                        && pixmaps@[j].meta.high + 2 * ALIGN <= MAX_CANVAS,
                forall|j: int| 0 <= j < total ==> #[trigger] dims@[j]
                    == [(spec_src_wide(pixmaps@, j) + 2 * ALIGN) as i32,
                        (spec_src_high(pixmaps@, j) + 2 * ALIGN) as i32],
            decreases total - i,
        {
            let d = dims[i];
            let e = if d[0] >= d[1] { d[0] } else { d[1] };
            proof {
                lemma_ext_unfold(pixmaps@, i as int + 1);
            }
            if e > ext {
                ext = e;
            }
            i = i + 1;
        }

        // largest-first placement order: insert each source into the
        // order before the first strictly smaller key
        let mut keys: Vec<u64> = Vec::new();
        let mut i: usize = 0;
        while i < total
            invariant
                i <= total,
                total == dims@.len(),
                total == n + 1,
                n == pixmaps@.len(),
                keys@.len() == i,
                forall|j: int| 0 <= j < n
                    ==> (#[trigger] pixmaps@[j]).meta.wide + 2 * ALIGN <= MAX_CANVAS
                        && pixmaps@[j].meta.high + 2 * ALIGN <= MAX_CANVAS,
                forall|j: int| 0 <= j < total ==> #[trigger] dims@[j]
                    == [(spec_src_wide(pixmaps@, j) + 2 * ALIGN) as i32,
                        (spec_src_high(pixmaps@, j) + 2 * ALIGN) as i32],
                forall|j: int| 0 <= j < i
                    ==> #[trigger] keys@[j] as int == spec_key(pixmaps@, j),
            decreases total - i,
        {
            let d = dims[i];
            let big = if d[0] >= d[1] { d[0] } else { d[1] };
            let small = if d[0] >= d[1] { d[1] } else { d[0] };
            keys.push((big as u64) * 0x10000 + (small as u64));
            i = i + 1;
        }
        let mut order: Vec<usize> = Vec::new();
        let mut p: usize = 0;
        proof {
            lemma_order_zero(pixmaps@);
            assert(order@ =~= spec_order(pixmaps@, 0));
        }
        while p < total
            invariant
                p <= total,
                total == dims@.len(),
                total == n + 1,
                n == pixmaps@.len(),
                keys@.len() == total,
                forall|j: int| 0 <= j < total
                    ==> #[trigger] keys@[j] as int == spec_key(pixmaps@, j),
                order@.len() == p,
                order@ == spec_order(pixmaps@, p as int),
                forall|k: int| 0 <= k < p ==> 0 <= #[trigger] order@[k] < p,
                forall|k1: int, k2: int| 0 <= k1 < p && 0 <= k2 < p && k1 != k2
                    ==> order@[k1] != order@[k2],
                forall|v: int| 0 <= v < p ==> #[trigger] in_order(order@, v),
            decreases total - p,
        {
            let mut q: usize = 0;
            while q < order.len() && keys[order[q]] >= keys[p]
                invariant
                    q <= order@.len(),
                    keys@.len() == total,
                    forall|j: int| 0 <= j < total
                        ==> #[trigger] keys@[j] as int == spec_key(pixmaps@, j),
                    forall|k: int| 0 <= k < order@.len() ==> 0 <= #[trigger] order@[k] < p
                        < total,
                    forall|i2: int| 0 <= i2 < q
                        ==> spec_key(pixmaps@, #[trigger] order@[i2] as int)
                            >= spec_key(pixmaps@, p as int),
                decreases order@.len() - q,
            {
                q = q + 1;
            }
            let ghost before = order@;
            proof {
                if (q as int) < before.len() {
                    assert(spec_key(pixmaps@, before[q as int] as int)
                        < spec_key(pixmaps@, p as int));
                }
                lemma_ins_pos(pixmaps@, before, p as int, q as int);
            }
            order.insert(q, p);
            proof {
                lemma_order_unfold(pixmaps@, p as int + 1);
                assert(order@ == before.insert(q as int, p));
                assert(order@ == spec_order(pixmaps@, p as int + 1));
                assert forall|v: int| 0 <= v < p + 1 implies #[trigger] in_order(order@, v)
                    by {
                    if v == p {
                        assert(order@[q as int] == p);
                    } else {
                        assert(in_order(before, v));
                        let k0 = choose|k: int| 0 <= k < before.len()
                            && #[trigger] before[k] == v;
                        if k0 < q {
                            assert(order@[k0] == v);
                        } else {
                            assert(order@[k0 + 1] == v);
                        }
                    }
                }
                assert forall|k1: int, k2: int| 0 <= k1 < order@.len()
                    && 0 <= k2 < order@.len() && k1 != k2
                    implies order@[k1] != order@[k2] by {
                    let b1: int = if k1 < q { k1 } else { k1 - 1 };
                    let b2: int = if k2 < q { k2 } else { k2 - 1 };
                    if k1 != q && k2 != q {
                        assert(order@[k1] == before[b1]);
                        assert(order@[k2] == before[b2]);
                    }
                }
            }
            p = p + 1;
        }

        // place every padded rectangle
        let mut packer = ShelfPacker::new();
        let mut slots: Vec<Option<[i32; 4]>> = Vec::new();
        let mut i: usize = 0;
        while i < total
            invariant
                i <= total,
                slots@.len() == i,
                forall|j: int| 0 <= j < i ==> slots@[j] is None,
            decreases total - i,
        {
            slots.push(None);
            i = i + 1;
        }
        let mut maxx: i32 = ALIGN;
        let mut maxy: i32 = ALIGN;
        let mut k: usize = 0;
        proof {
            lemma_run_zero(pixmaps@, order@);
        }
        while k < total
            invariant
                k <= total,
                total == dims@.len(),
                total == n + 1,
                n == pixmaps@.len(),
                order@.len() == total,
                slots@.len() == total,
                packer.wf(),
                ALIGN <= maxx <= MAX_CANVAS,
                ALIGN <= maxy <= MAX_CANVAS,
                order@ == spec_order(pixmaps@, total as int),
                spec_run(pixmaps@, order@, k as int)
                    == Some(((packer.state()), maxx as int, maxy as int)),
                forall|k2: int| 0 <= k2 < total ==> 0 <= #[trigger] order@[k2] < total,
                forall|k1: int, k2: int| 0 <= k1 < total && 0 <= k2 < total && k1 != k2
                    ==> order@[k1] != order@[k2],
                forall|v: int| 0 <= v < total ==> #[trigger] in_order(order@, v),
                forall|j: int| 0 <= j < n
                    ==> (#[trigger] pixmaps@[j]).meta.wide + 2 * ALIGN <= MAX_CANVAS
                        && pixmaps@[j].meta.high + 2 * ALIGN <= MAX_CANVAS,
                forall|j: int| 0 <= j < total ==> #[trigger] dims@[j]
                    == [(spec_src_wide(pixmaps@, j) + 2 * ALIGN) as i32,
                        (spec_src_high(pixmaps@, j) + 2 * ALIGN) as i32],
                forall|j: int| 0 <= j < total
                    ==> ((#[trigger] slots@[j]) is Some <==> exists|k2: int| 0 <= k2 < k
                        && #[trigger] order@[k2] == j),
                forall|j: int| 0 <= j < total && (#[trigger] slots@[j]) is Some ==> {
                    let rect = slots@[j].unwrap();
                    &&& rect[0] + dims@[j][0] == rect[2]
                    &&& rect[1] + dims@[j][1] == rect[3]
                    &&& 0 <= rect[0]
                    &&& 0 <= rect[1]
                    &&& rect[2] <= maxx
                    &&& rect[3] <= maxy
                    &&& packer.older(rect)
                },
                forall|j1: int, j2: int| 0 <= j1 < total && 0 <= j2 < total && j1 != j2
                    && (#[trigger] slots@[j1]) is Some && (#[trigger] slots@[j2]) is Some
                    ==> rects_disjoint(slots@[j1].unwrap(), slots@[j2].unwrap()),
            decreases total - k,
        {
            let pslot = order[k];
            let d = dims[pslot];
            let ghost mx0 = maxx as int;
            let ghost my0 = maxy as int;
            let rect = match packer.place(d[0], d[1]) {
                Some(rr) => rr,
                None => {
                    proof {
                        lemma_run_unfold(pixmaps@, order@, k as int + 1);
                        assert((d[0] as int) == spec_pad_w(pixmaps@, pslot as int));
                        assert((d[1] as int) == spec_pad_h(pixmaps@, pslot as int));
                        assert(spec_run(pixmaps@, order@, k as int + 1) is None);
                        lemma_run_none(pixmaps@, order@, k as int + 1, total as int);
                    }
                    return Err(AtlasError::Full);
                },
            };
            proof {
                if slots@[pslot as int] is Some {
                    let k0 = choose|k2: int| 0 <= k2 < k
                        && #[trigger] order@[k2] == pslot as int;
                    assert(order@[k0] == order@[k as int]);
                }
            }
            let ghost pre_slots = slots@;
            let ghost pre_packer = packer;
            slots[pslot] = Some(rect);
            if rect[2] > maxx {
                maxx = rect[2];
            }
            if rect[3] > maxy {
                maxy = rect[3];
            }
            k = k + 1;
            proof {
                lemma_run_unfold(pixmaps@, order@, k as int);
                assert((d[0] as int) == spec_pad_w(pixmaps@, pslot as int));
                assert((d[1] as int) == spec_pad_h(pixmaps@, pslot as int));
                assert(spec_run(pixmaps@, order@, k as int)
                    == Some(((packer.state()), maxx as int, maxy as int)));
                assert forall|j1: int, j2: int| 0 <= j1 < total && 0 <= j2 < total
                    && j1 != j2 && (#[trigger] slots@[j1]) is Some
                    && (#[trigger] slots@[j2]) is Some
                    implies rects_disjoint(slots@[j1].unwrap(), slots@[j2].unwrap()) by {
                    if j1 == pslot as int {
                        assert(pre_packer.older(pre_slots[j2].unwrap()));
                        assert(rects_disjoint(pre_slots[j2].unwrap(), rect));
                    } else if j2 == pslot as int {
                        assert(pre_packer.older(pre_slots[j1].unwrap()));
                        assert(rects_disjoint(pre_slots[j1].unwrap(), rect));
                    }
                }
                assert forall|j: int| 0 <= j < total && (#[trigger] slots@[j]) is Some
                    implies packer.older(slots@[j].unwrap()) by {
                    if j != pslot as int {
                        assert(pre_packer.older(pre_slots[j].unwrap()));
                    }
                }
                assert forall|j: int| 0 <= j < total
                    implies ((#[trigger] slots@[j]) is Some <==> exists|k2: int|
                        0 <= k2 < k && #[trigger] order@[k2] == j) by {
                    if j == pslot as int {
                        assert(order@[k - 1] == j);
                    } else {
                        if slots@[j] is Some {
                            let k0 = choose|k2: int| 0 <= k2 < k - 1
                                && #[trigger] order@[k2] == j;
                            assert(0 <= k0 < k && order@[k0] == j);
                        } else {
                            if exists|k2: int| 0 <= k2 < k && order@[k2] == j {
                                let k0 = choose|k2: int| 0 <= k2 < k
                                    && #[trigger] order@[k2] == j;
                                assert(k0 == k - 1 || k0 < k - 1);
                            }
                        }
                    }
                }
            }
        }

        proof {
            assert forall|j: int| 0 <= j < total implies (#[trigger] slots@[j]) is Some by {
                assert(in_order(order@, j));
                let k0 = choose|k2: int| 0 <= k2 < order@.len()
                    && #[trigger] order@[k2] == j;
                assert(0 <= k0 < k && order@[k0] == j);
            }
        }

        // tightest aligned bounding box over every placement, never
        // thinner than the largest padded source in either axis
        let wide = roundup_align(if ext > maxx { ext } else { maxx });
        let high = roundup_align(if ext > maxy { ext } else { maxy });

        // checkerboard background, then blit each source with its apron
        let mut image = checkerboard(wide, high, Rgba([255, 0, 255, 255]),
            Rgba([0, 255, 255, 255]));
        let white = Pixmap::new(1, 1, Rgba([0xff, 0xff, 0xff, 0xff]));
        let mut uivis: Vec<[i32; 4]> = Vec::new();
        let mut i: usize = 0;
        while i < total
            invariant
                i <= total,
                total == n + 1,
                n == pixmaps@.len(),
                slots@.len() == total,
                forall|j: int| 0 <= j < pixmaps@.len() ==> (#[trigger] pixmaps@[j]).wf(),
                white.wf(),
                white.meta.wide == 1,
                white.meta.high == 1,
                forall|x: int, y: int| 0 <= x < 1 && 0 <= y < 1
                    ==> white.spec_get(x, y) == Rgba([0xffu8, 0xffu8, 0xffu8, 0xffu8]),
                image.wf(),
                image.meta == atlas_meta(wide, high),
                1 <= wide <= MAX_CANVAS,
                1 <= high <= MAX_CANVAS,
                forall|j: int| 0 <= j < total ==> (#[trigger] slots@[j]) is Some,
                forall|j: int| 0 <= j < total ==> {
                    let rect = (#[trigger] slots@[j]).unwrap();
                    &&& rect[0] + spec_src_wide(pixmaps@, j) + 2 * ALIGN == rect[2]
                    &&& rect[1] + spec_src_high(pixmaps@, j) + 2 * ALIGN == rect[3]
                    &&& 0 <= rect[0]
                    &&& 0 <= rect[1]
                    &&& rect[2] <= wide
                    &&& rect[3] <= high
                },
                forall|j1: int, j2: int| 0 <= j1 < total && 0 <= j2 < total && j1 != j2
                    ==> rects_disjoint((#[trigger] slots@[j1]).unwrap(),
                        (#[trigger] slots@[j2]).unwrap()),
                uivis@.len() == i,
                forall|j: int| 0 <= j < i ==> #[trigger] uivis@[j] == [
                    (slots@[j].unwrap()[0] + ALIGN) as i32,
                    (slots@[j].unwrap()[1] + ALIGN) as i32,
                    (slots@[j].unwrap()[2] - ALIGN) as i32,
                    (slots@[j].unwrap()[3] - ALIGN) as i32,
                ],
                forall|j: int, x: int, y: int| 0 <= j < i
                    && 0 <= x < spec_src_wide(pixmaps@, j)
                    && 0 <= y < spec_src_high(pixmaps@, j)
                    ==> #[trigger] image.spec_get(uivis@[j][0] + x, uivis@[j][1] + y)
                        == if j < n { pixmaps@[j].spec_get(x, y) }
                            else { Rgba([0xffu8, 0xffu8, 0xffu8, 0xffu8]) },
            decreases total - i,
        {
            let rect = match slots[i] {
                Some(rr) => rr,
                None => { return Err(AtlasError::Full); },
            };
            let ghost pre = image;
            if i < n {
                blit_with_apron(&mut image, rect, &pixmaps[i]);
            } else {
                blit_with_apron(&mut image, rect, &white);
            }
            uivis.push([rect[0] + ALIGN, rect[1] + ALIGN, rect[2] - ALIGN, rect[3] - ALIGN]);
            i = i + 1;
            proof {
                assert forall|j: int, x: int, y: int| 0 <= j < i
                    && 0 <= x < spec_src_wide(pixmaps@, j)
                    && 0 <= y < spec_src_high(pixmaps@, j)
                    implies #[trigger] image.spec_get(uivis@[j][0] + x, uivis@[j][1] + y)
                        == if j < n { pixmaps@[j].spec_get(x, y) }
                            else { Rgba([0xffu8, 0xffu8, 0xffu8, 0xffu8]) } by {
                    let rj = slots@[j].unwrap();
                    if j == i - 1 {
                        assert(spec_clamp(uivis@[j][0] + x - rj[0] - ALIGN,
                            spec_src_wide(pixmaps@, j) - 1) == x);
                        assert(spec_clamp(uivis@[j][1] + y - rj[1] - ALIGN,
                            spec_src_high(pixmaps@, j) - 1) == y);
                    } else {
                        assert(rects_disjoint(rj, slots@[i - 1].unwrap()));
                        assert(pre.spec_get(uivis@[j][0] + x, uivis@[j][1] + y)
                            == image.spec_get(uivis@[j][0] + x, uivis@[j][1] + y));
                    }
                }
            }
        }

        let atlas = Atlas { wide, high, uivis };
        proof {
            assert forall|i2: int, j2: int| 0 <= i2 <= n as int && 0 <= j2 <= n as int
                && i2 != j2
                implies rects_disjoint(spec_pad(#[trigger] atlas.uivis@[i2]),
                    spec_pad(#[trigger] atlas.uivis@[j2])) by {
                assert(rects_disjoint(slots@[i2].unwrap(), slots@[j2].unwrap()));
                assert(spec_pad(atlas.uivis@[i2]) == slots@[i2].unwrap());
                assert(spec_pad(atlas.uivis@[j2]) == slots@[j2].unwrap());
            }
        }
        Ok((image, atlas))
    }
}

/// UV scale law: every coordinate of a returned UV rectangle is a
/// fraction of one. For a well-formed atlas each stored corner lies in
/// `[0, dimension]`, so its scaled fixed-point value lies in `[0, 1]`:
/// at least `0` and at most `0xffff / 0xffff`.
pub proof fn lemma_uv_in_unit(atlas: Atlas, index: int)
    requires
        atlas.wf(),
        0 <= index < atlas.uivis@.len(),
    ensures
        forall|c: int| 0 <= c < 4
            ==> 0 <= (#[trigger] atlas.spec_lookup_rect(index)[c]).0 <= 0xffff,
        atlas.spec_lookup_rect(index)[0]
            == Atlas::spec_scale(atlas.uivis@[index][0] as int, atlas.wide as int),
        atlas.spec_lookup_rect(index)[1]
            == Atlas::spec_scale(atlas.uivis@[index][1] as int, atlas.high as int),
        atlas.spec_lookup_rect(index)[2]
            == Atlas::spec_scale(atlas.uivis@[index][2] as int, atlas.wide as int),
        atlas.spec_lookup_rect(index)[3]
            == Atlas::spec_scale(atlas.uivis@[index][3] as int, atlas.high as int),
        0 <= atlas.uivis@[index][0] <= atlas.wide,
        0 <= atlas.uivis@[index][1] <= atlas.high,
        0 <= atlas.uivis@[index][2] <= atlas.wide,
        0 <= atlas.uivis@[index][3] <= atlas.high,
{
    assert(0 <= atlas.uivis@[index][0] <= atlas.uivis@[index][2] <= atlas.wide);
    assert(0 <= atlas.uivis@[index][1] <= atlas.uivis@[index][3] <= atlas.high);
}

} // verus!
