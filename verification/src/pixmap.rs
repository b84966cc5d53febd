//! Owned RGBA rasters addressed by 2D coordinates.
//!
//! A `Pixmap` couples a flat pixel buffer with a `Meta` describing how
//! coordinates map into it (offset, row pitch, width, height). Every
//! operation is bounds-checked against the metadata, and the metadata
//! is always consistent with the buffer length.

use vstd::prelude::*;

verus! {

/// One 4-channel 8-bit pixel; channel 4 is coverage/alpha.
#[derive(Debug, Clone, Copy, PartialEq, Eq, Hash)]
pub struct Rgba(pub [u8; 4]);

impl Rgba {
    pub fn new(r: u8, g: u8, b: u8, a: u8) -> (p: Rgba)
        ensures
            p.0@[0] == r,
            p.0@[1] == g,
            p.0@[2] == b,
            p.0@[3] == a,
    {
        Rgba([r, g, b, a])
    }

    /// All channels zero: the decoded form of a transparent source texel.
    pub fn transparent() -> (p: Rgba)
        ensures
            p.0@ =~= seq![0u8, 0u8, 0u8, 0u8],
    {
        Rgba::new(0, 0, 0, 0)
    }

    pub fn black() -> (p: Rgba)
        ensures
            p.0@ =~= seq![0u8, 0u8, 0u8, 0xffu8],
    {
        Rgba::new(0, 0, 0, 0xff)
    }

    /// The opaque white swatch sampled by untextured draws.
    pub fn white() -> (p: Rgba)
        ensures
            p.0@ =~= seq![0xffu8, 0xffu8, 0xffu8, 0xffu8],
    {
        Rgba::new(0xff, 0xff, 0xff, 0xff)
    }
}

/// How 2D coordinates map into a flat pixel buffer.
#[derive(Debug, Clone, Copy, PartialEq, Eq)]
pub struct Meta {
    pub offset: usize,
    pub pitch: usize,
    pub wide: usize,
    pub high: usize,
}

impl Meta {
    /// The buffer position of coordinate `(x, y)`.
    pub open spec fn spec_index(self, x: int, y: int) -> int {
        self.offset + self.pitch * y + x
    }

    /// Internal consistency: the width lies within a row's pitch and,
    /// unless a dimension is zero and nothing is addressable, every
    /// addressable position fits in a machine word.
    pub open spec fn wf(self) -> bool {
        &&& self.wide <= self.pitch
        &&& self.wide <= i32::MAX
        &&& self.high <= i32::MAX
        &&& 1 <= self.wide && 1 <= self.high
            ==> self.spec_index(self.wide - 1, self.high - 1) <= usize::MAX
    }

    /// The largest buffer position this metadata can address.
    pub open spec fn spec_last_index(self) -> int {
        self.spec_index(self.wide - 1, self.high - 1)
    }

    pub proof fn lemma_index_in_range(self, x: int, y: int)
        requires
            self.wf(),
            0 <= x < self.wide,
            0 <= y < self.high,
        ensures
            self.offset <= self.spec_index(x, y) <= self.spec_last_index(),
    {
        assert(self.pitch * y <= self.pitch * (self.high - 1)) by (nonlinear_arith)
            requires 0 <= y <= self.high - 1, self.pitch >= 0;
        assert(self.pitch * y >= 0) by (nonlinear_arith)
            requires y >= 0, self.pitch >= 0;
    }

    /// Distinct in-bounds coordinates map to distinct buffer positions.
    pub proof fn lemma_index_injective(self, x0: int, y0: int, x1: int, y1: int)
        requires
            self.wf(),
            0 <= x0 < self.wide,
            0 <= y0 < self.high,
            0 <= x1 < self.wide,
            0 <= y1 < self.high,
            self.spec_index(x0, y0) == self.spec_index(x1, y1),
        ensures
            x0 == x1,
            y0 == y1,
    {
        let q = self.pitch * y0 + x0;
        assert(self.pitch * y0 + x0 == y0 * (self.pitch as int) + x0) by (nonlinear_arith);
        assert(self.pitch * y1 + x1 == y1 * (self.pitch as int) + x1) by (nonlinear_arith);
        vstd::arithmetic::div_mod::lemma_fundamental_div_mod_converse(
            q, self.pitch as int, y0, x0);
        vstd::arithmetic::div_mod::lemma_fundamental_div_mod_converse(
            q, self.pitch as int, y1, x1);
    }

    /// Validate and convert raw layout parameters; a zero width or
    /// height is a valid empty layout with nothing addressable. The
    /// stored pitch is the requested pitch rounded up to at least the
    /// width.
    pub fn try_new(offset: i32, pitch: i32, wide: i32, high: i32) -> (r: Option<Meta>)
        ensures
            match r {
                Some(m) => {
                    &&& m.wf()
                    &&& m.offset == offset
                    &&& m.wide == wide
                    &&& m.high == high
                    &&& m.wide <= m.pitch < m.wide + pitch
                    &&& m.pitch == spec_next_multiple_of(wide as int, pitch as int)
                    &&& (m.pitch as int) % (pitch as int) == 0
                    &&& pitch == 1 ==> m.pitch == wide
                },
                None => offset < 0 || pitch < 1 || wide < 0 || high < 0
                    || (wide >= 1 && high >= 1 && Meta {
                        offset: offset as usize,
                        pitch: spec_next_multiple_of(wide as int, pitch as int) as usize,
                        wide: wide as usize,
                        high: high as usize,
                    }.spec_last_index() > usize::MAX),
            },
    {
        if offset < 0 || pitch < 1 || wide < 0 || high < 0 {
            return None;
        }
        let offset = offset as usize;
        let wide = wide as usize;
        let high = high as usize;
        let pitch = next_multiple_of(wide, pitch as usize);
        let m = Meta { offset, pitch, wide, high };
        if wide >= 1 && high >= 1 {
            // every addressable position must fit in a machine word
            let row_span = match pitch.checked_mul(high - 1) {
                Some(v) => v,
                None => { return None; },
            };
            let end = match row_span.checked_add(offset) {
                Some(v) => match v.checked_add(wide - 1) {
                    Some(w) => w,
                    None => { return None; },
                },
                None => { return None; },
            };
            proof {
                assert(end == m.spec_last_index());
            }
        }
        Some(m)
    }

    /// The buffer position of `at`, or `None` when out of bounds.
    pub fn index(&self, at: [i32; 2]) -> (r: Option<usize>)
        requires
            self.wf(),
        ensures
            match r {
                Some(i) => {
                    &&& 0 <= at[0] < self.wide
                    &&& 0 <= at[1] < self.high
                    &&& i == self.spec_index(at[0] as int, at[1] as int)
                    &&& i <= self.spec_last_index()
                },
                None => !(0 <= at[0] < self.wide && 0 <= at[1] < self.high),
            },
    {
        let x = at[0];
        let y = at[1];
        if x < 0 || y < 0 {
            return None;
        }
        let x = x as usize;
        let y = y as usize;
        if x >= self.wide || y >= self.high {
            return None;
        }
        proof {
            self.lemma_index_in_range(x as int, y as int);
        }
        Some(self.offset + self.pitch * y + x)
    }

    /// Metadata for the sub-rectangle `[x0, x1) x [y0, y1)`, sharing
    /// this layout's pitch; `None` when the rectangle is empty or does
    /// not lie within this layout.
    pub fn slice(&self, rect: [i32; 4]) -> (r: Option<Meta>)
        requires
            self.wf(),
        ensures
            match r {
                Some(m) => {
                    &&& 0 <= rect[0] < rect[2] <= self.wide
                    &&& 0 <= rect[1] < rect[3] <= self.high
                    &&& m.wf()
                    &&& m.pitch == self.pitch
                    &&& m.wide == rect[2] - rect[0]
                    &&& m.high == rect[3] - rect[1]
                    &&& m.offset == self.spec_index(rect[0] as int, rect[1] as int)
                    &&& m.spec_last_index() <= self.spec_last_index()
                },
                None => !(0 <= rect[0] < rect[2] <= self.wide
                    && 0 <= rect[1] < rect[3] <= self.high),
            },
    {
        let x0 = rect[0];
        let y0 = rect[1];
        let x1 = rect[2];
        let y1 = rect[3];
        if x1 < 1 || y1 < 1 {
            return None;
        }
        let corner = match self.index([x1 - 1, y1 - 1]) {
            Some(i) => i,
            None => { return None; },
        };
        let offset = match self.index([x0, y0]) {
            Some(i) => i,
            None => { return None; },
        };
        if x1 <= x0 || y1 <= y0 {
            return None;
        }
        let m = Meta {
            offset,
            pitch: self.pitch,
            wide: (x1 - x0) as usize,
            high: (y1 - y0) as usize,
        };
        proof {
            assert(m.spec_last_index() == self.spec_index(x1 - 1 as int, y1 - 1 as int)) by {
                assert(self.pitch * (y0 as int) + self.pitch * ((y1 - 1 - y0) as int)
                    == self.pitch * ((y1 - 1) as int)) by (nonlinear_arith);
            }
            self.lemma_index_in_range(x1 - 1 as int, y1 - 1 as int);
        }
        Some(m)
    }

    /// `Some` exactly when the layout is nonempty and every
    /// addressable position is below `len`.
    pub fn validate(&self, len: usize) -> (r: Option<()>)
        requires
            self.wf(),
        ensures
            r is Some <==> 1 <= self.wide && 1 <= self.high && self.spec_last_index() < len,
    {
        if self.wide < 1 || self.high < 1 {
            return None;
        }
        proof {
            self.lemma_index_in_range(self.wide - 1 as int, self.high - 1 as int);
        }
        let i = self.offset + self.pitch * (self.high - 1) + (self.wide - 1);
        if i < len {
            Some(())
        } else {
            None
        }
    }

    /// Rows are stored back to back, with no gap between them.
    pub fn is_contiguous(&self) -> (r: bool)
        ensures
            r == (self.wide == self.pitch),
    {
        self.wide == self.pitch
    }

    pub fn wide(&self) -> (r: usize)
        ensures
            r == self.wide,
    {
        self.wide
    }

    pub fn high(&self) -> (r: usize)
        ensures
            r == self.high,
    {
        self.high
    }
}

/// The least multiple of `m` that is at least `x`.
pub open spec fn spec_next_multiple_of(x: int, m: int) -> int {
    if x % m == 0 { x } else { x + m - x % m }
}

fn next_multiple_of(x: usize, m: usize) -> (r: usize)
    requires
        m >= 1,
        x + m <= usize::MAX,
    ensures
        r == spec_next_multiple_of(x as int, m as int),
        x <= r < x + m,
        r % m == 0,
{
    let rem = x % m;
    if rem == 0 {
        x
    } else {
        proof {
            vstd::arithmetic::div_mod::lemma_fundamental_div_mod(x as int, m as int);
            let q = (x as int) / (m as int);
            assert((x as int) - rem + m == (q + 1) * m) by (nonlinear_arith)
                requires (x as int) == (m as int) * q + rem;
            vstd::arithmetic::div_mod::lemma_mod_multiples_basic(q + 1, m as int);
        }
        x - rem + m
    }
}

/// An owned raster: a flat pixel buffer plus the layout that addresses it.
#[derive(Debug, Clone, PartialEq, Eq)]
pub struct Pixmap {
    pub pixels: Vec<Rgba>,
    pub meta: Meta,
}

impl Pixmap {
    /// The layout is consistent and, unless the raster is empty,
    /// addresses only valid buffer positions.
    pub open spec fn wf(self) -> bool {
        &&& self.meta.wf()
        &&& 1 <= self.meta.wide && 1 <= self.meta.high
            ==> self.meta.spec_last_index() < self.pixels@.len()
    }

    /// The pixel at `(x, y)`.
    pub open spec fn spec_get(self, x: int, y: int) -> Rgba {
        self.pixels@[self.meta.spec_index(x, y)]
    }

    pub fn wide(&self) -> (r: i32)
        requires
            self.wf(),
        ensures
            r == self.meta.wide,
    {
        self.meta.wide as i32
    }

    pub fn high(&self) -> (r: i32)
        requires
            self.wf(),
        ensures
            r == self.meta.high,
    {
        self.meta.high as i32
    }

    /// A fresh contiguous raster filled with one colour; zero
    /// dimensions make a valid empty raster.
    pub fn new(wide: i32, high: i32, fill: Rgba) -> (r: Pixmap)
        requires
            0 <= wide,
            0 <= high,
            wide * high <= usize::MAX,
        ensures
            r.wf(),
            r.meta.wide == wide,
            r.meta.high == high,
            r.meta.offset == 0,
            r.meta.pitch == wide,
            r.pixels@ == Seq::new((wide * high) as nat, |k: int| fill),
            forall|x: int, y: int| 0 <= x < wide && 0 <= y < high
                ==> r.spec_get(x, y) == fill,
    {
        proof {
            if wide >= 1 && high >= 1 {
                assert((wide as int) * ((high - 1) as int) + wide <= wide * high)
                    by (nonlinear_arith)
                    requires 1 <= wide, 1 <= high;
                assert((wide as int) * ((high - 1) as int) >= 0) by (nonlinear_arith)
                    requires 1 <= wide, 1 <= high;
            }
            assert((wide as int) * (high as int) >= 0) by (nonlinear_arith)
                requires 0 <= wide, 0 <= high;
        }
        let len = (wide as usize) * (high as usize);
        let mut pixels: Vec<Rgba> = Vec::new();
        pixels.resize(len, fill);
        let meta = Meta {
            offset: 0,
            pitch: wide as usize,
            wide: wide as usize,
            high: high as usize,
        };
        let r = Pixmap { pixels, meta };
        proof {
            assert(r.pixels@ =~= Seq::new((wide * high) as nat, |k: int| fill));
            assert forall|x: int, y: int| 0 <= x < wide && 0 <= y < high
                implies r.spec_get(x, y) == fill by {
                r.meta.lemma_index_in_range(x, y);
            }
        }
        r
    }

    /// Adopt an existing buffer under the given layout; `None` when
    /// the layout is invalid or addresses beyond the buffer. A zero
    /// dimension is a valid empty raster over any buffer.
    pub fn new_from_pixels(pixels: Vec<Rgba>, offset: i32, pitch: i32, wide: i32, high: i32)
        -> (r: Option<Pixmap>)
        ensures
            match r {
                Some(pm) => {
                    &&& pm.wf()
                    &&& pm.pixels@ == pixels@
                    &&& pm.meta.offset == offset
                    &&& pm.meta.wide == wide
                    &&& pm.meta.high == high
                    &&& pitch == 1 ==> pm.meta.pitch == wide
                },
                None => offset < 0 || pitch < 1 || wide < 0 || high < 0
                    || (wide >= 1 && high >= 1 && Meta {
                        offset: offset as usize,
                        pitch: spec_next_multiple_of(wide as int, pitch as int) as usize,
                        wide: wide as usize,
                        high: high as usize,
                    }.spec_last_index() + 1 > pixels@.len()),
            },
    {
        let n = pixels.len();
        let meta = match Meta::try_new(offset, pitch, wide, high) {
            Some(m) => m,
            None => { return None; },
        };
        if meta.wide < 1 || meta.high < 1 {
            return Some(Pixmap { pixels, meta });
        }
        match meta.validate(n) {
            Some(_) => Some(Pixmap { pixels, meta }),
            None => None,
        }
    }

    /// The pixel at `at`, or `None` when out of bounds.
    pub fn get(&self, at: [i32; 2]) -> (r: Option<Rgba>)
        requires
            self.wf(),
        ensures
            match r {
                Some(px) => {
                    &&& 0 <= at[0] < self.meta.wide
                    &&& 0 <= at[1] < self.meta.high
                    &&& px == self.spec_get(at[0] as int, at[1] as int)
                },
                None => !(0 <= at[0] < self.meta.wide && 0 <= at[1] < self.meta.high),
            },
    {
        match self.meta.index(at) {
            Some(i) => Some(self.pixels[i]),
            None => None,
        }
    }

    /// Overwrite the pixel at `at`, which must be in bounds.
    pub fn put(&mut self, at: [i32; 2], p: Rgba)
        requires
            old(self).wf(),
            0 <= at[0] < old(self).meta.wide,
            0 <= at[1] < old(self).meta.high,
        ensures
            final(self).wf(),
            final(self).meta == old(self).meta,
            final(self).pixels@ == old(self).pixels@.update(
                old(self).meta.spec_index(at[0] as int, at[1] as int), p),
            final(self).spec_get(at[0] as int, at[1] as int) == p,
            forall|x: int, y: int|
                0 <= x < old(self).meta.wide && 0 <= y < old(self).meta.high
                    && !(x == at[0] && y == at[1])
                ==> final(self).spec_get(x, y) == old(self).spec_get(x, y),
    {
        let i = match self.meta.index(at) {
            Some(i) => i,
            None => { return; },
        };
        self.pixels[i] = p;
        proof {
            let m = self.meta;
            assert forall|x: int, y: int|
                0 <= x < m.wide && 0 <= y < m.high && !(x == at[0] && y == at[1])
                implies final(self).spec_get(x, y) == old(self).spec_get(x, y) by {
                m.lemma_index_in_range(x, y);
                if m.spec_index(x, y) == m.spec_index(at[0] as int, at[1] as int) {
                    m.lemma_index_injective(x, y, at[0] as int, at[1] as int);
                }
            }
        }
    }

    /// The backing buffer, if rows are stored back to back.
    pub fn try_as_slice(&self) -> (r: Option<&Vec<Rgba>>)
        ensures
            match r {
                Some(v) => self.meta.wide == self.meta.pitch && v@ == self.pixels@,
                None => self.meta.wide != self.meta.pitch,
            },
    {
        if self.meta.is_contiguous() {
            Some(&self.pixels)
        } else {
            None
        }
    }

    /// Blit all of `src` so that its origin lands at `at`. The target
    /// rectangle must lie within this raster.
    pub fn copy_from(&mut self, at: [i32; 2], src: &Pixmap)
        requires
            old(self).wf(),
            src.wf(),
            0 <= at[0],
            0 <= at[1],
            at[0] + src.meta.wide <= old(self).meta.wide,
            at[1] + src.meta.high <= old(self).meta.high,
        ensures
            final(self).wf(),
            final(self).meta == old(self).meta,
            forall|x: int, y: int|
                0 <= x < src.meta.wide && 0 <= y < src.meta.high
                ==> final(self).spec_get(at[0] + x, at[1] + y) == src.spec_get(x, y),
            forall|x: int, y: int|
                0 <= x < old(self).meta.wide && 0 <= y < old(self).meta.high
                    && !(at[0] <= x < at[0] + src.meta.wide
                        && at[1] <= y < at[1] + src.meta.high)
                ==> final(self).spec_get(x, y) == old(self).spec_get(x, y),
    {
        let sw = src.wide();
        let sh = src.high();
        let mut sy: i32 = 0;
        while sy < sh
            invariant
                0 <= sy <= sh,
                sw == src.meta.wide,
                sh == src.meta.high,
                self.wf(),
                src.wf(),
                self.meta == old(self).meta,
                0 <= at[0],
                0 <= at[1],
                at[0] + src.meta.wide <= self.meta.wide,
                at[1] + src.meta.high <= self.meta.high,
                forall|x: int, y: int|
                    0 <= x < src.meta.wide && 0 <= y < sy
                    ==> self.spec_get(at[0] + x, at[1] + y) == src.spec_get(x, y),
                forall|x: int, y: int|
                    0 <= x < self.meta.wide && 0 <= y < self.meta.high
                        && !(at[0] <= x < at[0] + src.meta.wide
                            && at[1] <= y < at[1] + sy)
                    ==> self.spec_get(x, y) == old(self).spec_get(x, y),
            decreases sh - sy,
        {
            let mut sx: i32 = 0;
            while sx < sw
                invariant
                    0 <= sx <= sw,
                    0 <= sy < sh,
                    sw == src.meta.wide,
                    sh == src.meta.high,
                    self.wf(),
                    src.wf(),
                    self.meta == old(self).meta,
                    0 <= at[0],
                    0 <= at[1],
                    at[0] + src.meta.wide <= self.meta.wide,
                    at[1] + src.meta.high <= self.meta.high,
                    forall|x: int, y: int|
                        0 <= x < src.meta.wide && 0 <= y < sy
                        ==> self.spec_get(at[0] + x, at[1] + y) == src.spec_get(x, y),
                    forall|x: int| 0 <= x < sx
                        ==> self.spec_get(at[0] + x, at[1] + sy) == src.spec_get(x, sy as int),
                    forall|x: int, y: int|
                        0 <= x < self.meta.wide && 0 <= y < self.meta.high
                            && !(at[0] <= x < at[0] + src.meta.wide
                                && at[1] <= y < at[1] + sy + 1)
                        ==> self.spec_get(x, y) == old(self).spec_get(x, y),
                decreases sw - sx,
            {
                let px = match src.get([sx, sy]) {
                    Some(p) => p,
                    None => { return; },
                };
                self.put([at[0] + sx, at[1] + sy], px);
                sx = sx + 1;
            }
            sy = sy + 1;
        }
    }
}

impl Pixmap {
    /// An owned copy of the sub-rectangle `[x0, x1) x [y0, y1)`;
    /// `None` when the rectangle is empty or not within this raster.
    #[verifier::loop_isolation(false)]
    pub fn slice(&self, rect: [i32; 4]) -> (r: Option<Pixmap>)
        requires
            self.wf(),
        ensures
            match r {
                Some(pm) => {
                    &&& 0 <= rect[0] < rect[2] <= self.meta.wide
                    &&& 0 <= rect[1] < rect[3] <= self.meta.high
                    &&& pm.wf()
                    &&& pm.meta.wide == rect[2] - rect[0]
                    &&& pm.meta.high == rect[3] - rect[1]
                    &&& pm.meta.offset == 0
                    &&& pm.meta.pitch == pm.meta.wide
                    &&& forall|x: int, y: int|
                        0 <= x < pm.meta.wide && 0 <= y < pm.meta.high
                        ==> #[trigger] pm.spec_get(x, y)
                            == self.spec_get(rect[0] + x, rect[1] + y)
                },
                None => !(0 <= rect[0] < rect[2] <= self.meta.wide
                    && 0 <= rect[1] < rect[3] <= self.meta.high),
            },
    {
        if self.meta.slice(rect).is_none() {
            return None;
        }
        let w = rect[2] - rect[0];
        let h = rect[3] - rect[1];
        let mut px: Vec<Rgba> = Vec::new();
        let mut y: i32 = 0;
        while y < h
            invariant
                0 <= y <= h,
                px@.len() == y * w,
                forall|x2: int, y2: int| 0 <= x2 < w && 0 <= y2 < y
                    ==> px@[y2 * w + x2] == #[trigger] self.spec_get(rect[0] + x2,
                        rect[1] + y2),
            decreases h - y,
        {
            let mut x: i32 = 0;
            proof {
                assert((y + 1) * w <= h * w) by (nonlinear_arith)
                    requires y + 1 <= h, 0 <= w;
                assert(h * w <= 0x7fff_ffff * 0x7fff_ffff) by (nonlinear_arith)
                    requires 0 <= h <= 0x7fff_ffff, 0 <= w <= 0x7fff_ffff;
            }
            while x < w
                invariant
                    0 <= x <= w,
                    0 <= y < h,
                    px@.len() == y * w + x,
                    forall|x2: int, y2: int| 0 <= x2 < w && 0 <= y2 < y
                        ==> px@[y2 * w + x2] == #[trigger] self.spec_get(rect[0] + x2,
                            rect[1] + y2),
                    forall|x2: int| 0 <= x2 < x
                        ==> px@[y * w + x2] == #[trigger] self.spec_get(rect[0] + x2,
                            rect[1] + y),
                decreases w - x,
            {
                let c = match self.get([rect[0] + x, rect[1] + y]) {
                    Some(c) => c,
                    None => { return None; },
                };
                px.push(c);
                x = x + 1;
                proof {
                    assert forall|x2: int, y2: int| 0 <= x2 < w && 0 <= y2 < y
                        implies px@[y2 * w + x2] == #[trigger] self.spec_get(rect[0] + x2,
                            rect[1] + y2) by {
                        assert(0 <= y2 * w + x2 && y2 * w + x2 < (y as int) * (w as int))
                            by (nonlinear_arith)
                            requires 0 <= x2 < w, 0 <= y2, y2 + 1 <= y;
                    }
                }
            }
            proof {
                assert((y as int) * w + w == (y + 1) * (w as int)) by (nonlinear_arith);
                assert forall|x2: int, y2: int| 0 <= x2 < w && 0 <= y2 < y + 1
                    implies px@[y2 * w + x2] == #[trigger] self.spec_get(rect[0] + x2,
                        rect[1] + y2) by {
                    if y2 < y {
                        assert(0 <= y2 * w + x2 && y2 * w + x2 < (y as int) * (w as int))
                            by (nonlinear_arith)
                            requires 0 <= x2 < w, 0 <= y2, y2 + 1 <= y;
                    }
                }
            }
            y = y + 1;
        }
        let n = px.len();
        let pm = match Pixmap::new_from_pixels(px, 0, 1, w, h) {
            Some(pm) => pm,
            None => {
                proof {
                    assert((w as int) * ((h - 1) as int) + w == (w as int) * (h as int))
                        by (nonlinear_arith);
                    assert((w as int) * ((h - 1) as int) >= 0) by (nonlinear_arith)
                        requires 1 <= w, 1 <= h;
                    assert((h as int) * (w as int) == (w as int) * (h as int))
                        by (nonlinear_arith);
                    assert(false);
                }
                return None;
            },
        };
        proof {
            assert forall|x: int, y2: int| 0 <= x < w && 0 <= y2 < h
                implies #[trigger] pm.spec_get(x, y2)
                    == self.spec_get(rect[0] + x, rect[1] + y2) by {
                assert(pm.meta.spec_index(x, y2) == y2 * (w as int) + x)
                    by (nonlinear_arith)
                    requires pm.meta.offset == 0, pm.meta.pitch == w;
            }
        }
        Some(pm)
    }

    /// A fresh raster whose every pixel is the closure's value at its
    /// coordinates.
    #[verifier::loop_isolation(false)]
    pub fn new_from_fn<F: Fn([i32; 2]) -> Rgba>(wide: i32, high: i32, f: F) -> (r: Pixmap)
        requires
            0 <= wide,
            0 <= high,
            wide * high <= usize::MAX,
            forall|xy: [i32; 2]| 0 <= xy[0] < wide && 0 <= xy[1] < high
                ==> #[trigger] f.requires((xy,)),
        ensures
            r.wf(),
            r.meta.wide == wide,
            r.meta.high == high,
            r.meta.offset == 0,
            r.meta.pitch == wide,
            forall|x: int, y: int| 0 <= x < wide && 0 <= y < high
                ==> f.ensures(([x as i32, y as i32],), #[trigger] r.spec_get(x, y)),
    {
        let mut pm = Pixmap::new(wide, high, Rgba([0, 0, 0, 0]));
        let ghost m0 = pm.meta;
        let mut y: i32 = 0;
        while y < high
            invariant
                0 <= y <= high,
                pm.wf(),
                pm.meta == m0,
                forall|x2: int, y2: int| 0 <= x2 < wide && 0 <= y2 < y
                    ==> f.ensures(([x2 as i32, y2 as i32],), #[trigger] pm.spec_get(x2, y2)),
            decreases high - y,
        {
            let mut x: i32 = 0;
            while x < wide
                invariant
                    0 <= x <= wide,
                    0 <= y < high,
                    pm.wf(),
                    pm.meta == m0,
                    forall|x2: int, y2: int| 0 <= x2 < wide && 0 <= y2 < y
                        ==> f.ensures(([x2 as i32, y2 as i32],),
                            #[trigger] pm.spec_get(x2, y2)),
                    forall|x2: int| 0 <= x2 < x
                        ==> f.ensures(([x2 as i32, y as i32],),
                            #[trigger] pm.spec_get(x2, y as int)),
                decreases wide - x,
            {
                let c = f([x, y]);
                pm.put([x, y], c);
                x = x + 1;
            }
            y = y + 1;
        }
        pm
    }
}

/// All coordinates of a `wide` x `high` rectangle in row-major order.
pub fn iter_2d(wide: i32, high: i32) -> (r: Vec<[i32; 2]>)
    requires
        0 <= wide,
        0 <= high,
        wide * high <= usize::MAX,
    ensures
        r@.len() == wide * high,
        forall|k: int| 0 <= k < r@.len()
            ==> r@[k] == crate::util::spec_row_major_at(wide as int, k),
{
    crate::util::row_major(wide, high)
}

} // verus!
