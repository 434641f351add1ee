//! An RGBA raster and the integer operations on it: exact quarter turns,
//! value and channel histograms, the black and white points read off them,
//! and per-channel lookup tables.
use vstd::prelude::*;
use crate::cache::Weighed;

verus! {

// ---------------------------------------------------------------------------
// Index arithmetic
// ---------------------------------------------------------------------------

/// The first byte of pixel `(x, y)` in a raster `w` pixels wide.
pub open spec fn offset(w: int, x: int, y: int) -> int {
    (y * w + x) * 4
}

pub proof fn lemma_offset_bounds(w: int, h: int, x: int, y: int)
    requires
        0 <= x < w,
        0 <= y < h,
    ensures
        0 <= offset(w, x, y),
        offset(w, x, y) + 4 <= w * h * 4,
        y * w + x < w * h,
        y * w <= w * h,
{
    assert(0 <= y * w) by (nonlinear_arith)
        requires 0 <= y, 0 <= w;
    assert(y * w + x < w * h) by (nonlinear_arith)
        requires 0 <= x < w, 0 <= y < h;
}

/// Every byte index of a `w` by `h` raster belongs to one pixel and channel.
pub proof fn lemma_byte_decomposes(w: int, h: int, k: int)
    requires
        0 < w,
        0 <= h,
        0 <= k < w * h * 4,
    ensures
        0 <= (k / 4) % w < w,
        0 <= (k / 4) / w < h,
        k == offset(w, (k / 4) % w, (k / 4) / w) + k % 4,
{
    let p = k / 4;
    assert(k == p * 4 + k % 4);
    assert(0 <= p < w * h);
    assert(p == w * (p / w) + p % w) by (nonlinear_arith)
        requires 0 < w;
    assert(0 <= p % w < w) by (nonlinear_arith)
        requires 0 < w;
    assert(0 <= p / w < h) by (nonlinear_arith)
        requires 0 < w, 0 <= p < w * h;
    assert((p / w) * w == w * (p / w)) by (nonlinear_arith);
}

proof fn lemma_row_step(w: int, y: int)
    ensures
        (y * w + w) * 4 == (y + 1) * w * 4,
{
    assert((y * w + w) * 4 == (y + 1) * w * 4) by (nonlinear_arith);
}

/// `(y * w + x) * 4`, for a pixel inside a raster whose bytes fit in memory.
fn pixel_offset(w: u32, h: u32, x: u32, y: u32) -> (r: usize)
    requires
        x < w,
        y < h,
        w as int * h as int * 4 <= usize::MAX,
    ensures
        r == offset(w as int, x as int, y as int),
{
    proof { lemma_offset_bounds(w as int, h as int, x as int, y as int); }
    let row = y as usize * w as usize;
    (row + x as usize) * 4
}

// ---------------------------------------------------------------------------
// The raster
// ---------------------------------------------------------------------------

/// A `width` by `height` raster of RGBA pixels, row-major, four bytes each.
pub struct RgbaBuffer {
    width: u32,
    height: u32,
    data: Vec<u8>,
}

impl RgbaBuffer {
    pub closed spec fn w(&self) -> nat {
        self.width as nat
    }

    pub closed spec fn h(&self) -> nat {
        self.height as nat
    }

    /// The pixel bytes, row-major.
    pub closed spec fn bytes(&self) -> Seq<u8> {
        self.data@
    }

    /// The bytes cover the pixels exactly.
    pub open spec fn wf(&self) -> bool {
        self.bytes().len() == self.w() * self.h() * 4
    }

    /// Channel `c` of pixel `(x, y)`.
    pub open spec fn byte_at(&self, x: int, y: int, c: int) -> u8 {
        self.bytes()[offset(self.w() as int, x, y) + c]
    }

    /// A raster of the given size, every byte zero.
    pub fn new(width: u32, height: u32) -> (r: RgbaBuffer)
        requires
            width as int * height as int * 4 <= usize::MAX,
        ensures
            r.wf(),
            r.w() == width,
            r.h() == height,
            r.bytes() == Seq::new(width as nat * height as nat * 4, |k: int| 0u8),
    {
        let n = width as usize * height as usize * 4;
        let data = vec![0u8; n];
        assert(data@ =~= Seq::new(width as nat * height as nat * 4, |k: int| 0u8));
        RgbaBuffer { width, height, data }
    }

    /// A raster of the given size, every pixel `px`.
    pub fn from_pixel(width: u32, height: u32, px: [u8; 4]) -> (r: RgbaBuffer)
        requires
            width as int * height as int * 4 <= usize::MAX,
        ensures
            r.wf(),
            r.w() == width,
            r.h() == height,
            forall|k: int| 0 <= k < r.bytes().len() ==> #[trigger] r.bytes()[k] == px@[k % 4],
    {
        let n = width as usize * height as usize;
        let mut data: Vec<u8> = Vec::new();
        let mut p: usize = 0;
        while p < n
            invariant
                0 <= p <= n,
                n == width as int * height as int,
                n * 4 <= usize::MAX,
                data@.len() == p * 4,
                forall|k: int| 0 <= k < data@.len() ==> #[trigger] data@[k] == px@[k % 4],
            decreases n - p,
        {
            data.push(px[0]);
            data.push(px[1]);
            data.push(px[2]);
            data.push(px[3]);
            p += 1;
        }
        RgbaBuffer { width, height, data }
    }

    /// A raster over `data`, when it holds exactly `width * height` pixels.
    pub fn from_raw(width: u32, height: u32, data: Vec<u8>) -> (r: Option<RgbaBuffer>)
        ensures
            match r {
                Some(b) => b.wf() && b.w() == width && b.h() == height && b.bytes() == data@,
                None => data@.len() != width as int * height as int * 4,
            },
    {
        assert(width as int * height as int <= u64::MAX) by (nonlinear_arith)
            requires width <= u32::MAX, height <= u32::MAX;
        let n = width as u64 * height as u64;
        let len = data.len();
        if n > (usize::MAX / 4) as u64 {
            return None;
        }
        if len != (n as usize) * 4 {
            return None;
        }
        Some(RgbaBuffer { width, height, data })
    }

    pub fn width(&self) -> (r: u32)
        ensures
            r == self.w(),
    {
        self.width
    }

    pub fn height(&self) -> (r: u32)
        ensures
            r == self.h(),
    {
        self.height
    }

    pub fn dimensions(&self) -> (r: (u32, u32))
        ensures
            r == (self.w() as u32, self.h() as u32),
    {
        (self.width, self.height)
    }

    /// The pixel bytes, row-major.
    pub fn as_raw(&self) -> (r: &Vec<u8>)
        ensures
            r@ == self.bytes(),
    {
        &self.data
    }

    /// The pixel bytes, row-major, taken out.
    pub fn into_raw(self) -> (r: Vec<u8>)
        ensures
            r@ == self.bytes(),
    {
        self.data
    }

    /// A copy of the raster.
    pub fn duplicate(&self) -> (r: RgbaBuffer)
        ensures
            r.w() == self.w(),
            r.h() == self.h(),
            r.bytes() == self.bytes(),
    {
        let mut data: Vec<u8> = Vec::new();
        let mut i: usize = 0;
        while i < self.data.len()
            invariant
                0 <= i <= self.data.len(),
                data@ == self.data@.subrange(0, i as int),
            decreases self.data.len() - i,
        {
            data.push(self.data[i]);
            i += 1;
            assert(data@ =~= self.data@.subrange(0, i as int));
        }
        assert(self.data@.subrange(0, self.data.len() as int) =~= self.data@);
        RgbaBuffer { width: self.width, height: self.height, data }
    }

    /// The four channels of pixel `(x, y)`.
    pub fn get_pixel(&self, x: u32, y: u32) -> (r: [u8; 4])
        requires
            self.wf(),
            x < self.w(),
            y < self.h(),
        ensures
            forall|c: int| 0 <= c < 4 ==> #[trigger] r@[c] == self.byte_at(x as int, y as int, c),
    {
        proof { lemma_offset_bounds(self.w() as int, self.h() as int, x as int, y as int); }
        let _ = self.data.len();
        let o = pixel_offset(self.width, self.height, x, y);
        [self.data[o], self.data[o + 1], self.data[o + 2], self.data[o + 3]]
    }

    /// Set pixel `(x, y)` to `px`; every other byte stays.
    pub fn put_pixel(&mut self, x: u32, y: u32, px: [u8; 4])
        requires
            old(self).wf(),
            x < old(self).w(),
            y < old(self).h(),
        ensures
            final(self).wf(),
            final(self).w() == old(self).w(),
            final(self).h() == old(self).h(),
            forall|k: int| 0 <= k < final(self).bytes().len() ==> #[trigger] final(self).bytes()[k] == (
                if offset(old(self).w() as int, x as int, y as int) <= k < offset(old(self).w() as int, x as int, y as int) + 4 {
                    px@[k - offset(old(self).w() as int, x as int, y as int)]
                } else {
                    old(self).bytes()[k]
                }),
    {
        proof { lemma_offset_bounds(self.w() as int, self.h() as int, x as int, y as int); }
        let _ = self.data.len();
        let o = pixel_offset(self.width, self.height, x, y);
        self.data.set(o, px[0]);
        self.data.set(o + 1, px[1]);
        self.data.set(o + 2, px[2]);
        self.data.set(o + 3, px[3]);
    }
}

impl Weighed for RgbaBuffer {
    /// The resident pixel bytes: `width * height * 4` for a well-formed raster.
    open spec fn spec_weight(&self) -> nat {
        self.bytes().len()
    }

    fn weight(&self) -> (w: usize) {
        self.data.len()
    }
}

// ---------------------------------------------------------------------------
// Quarter turns
// ---------------------------------------------------------------------------

/// Quarter turns clockwise, taken modulo 4.
pub open spec fn turns_mod4(turns: int) -> int {
    turns % 4
}

/// Where pixel `(x, y)` of a raster turned `t` quarter turns clockwise comes
/// from in the `w` by `h` original.
pub open spec fn turned_source(w: int, h: int, t: int, x: int, y: int) -> (int, int) {
    if t == 0 {
        (x, y)
    } else if t == 1 {
        (y, h - 1 - x)
    } else if t == 2 {
        (w - 1 - x, h - 1 - y)
    } else {
        (w - 1 - y, x)
    }
}

/// `out` is `src` turned `t` quarter turns clockwise (`t` in 0..4): odd turns
/// swap width and height, and each pixel comes from its source pixel.
pub open spec fn is_turned(src: RgbaBuffer, out: RgbaBuffer, t: int) -> bool {
    &&& out.wf()
    &&& (if t % 2 == 1 { out.w() == src.h() && out.h() == src.w() } else { out.w() == src.w() && out.h() == src.h() })
    &&& forall|x: int, y: int, c: int| 0 <= x < out.w() && 0 <= y < out.h() && 0 <= c < 4 ==>
        #[trigger] out.byte_at(x, y, c) == src.byte_at(
            turned_source(src.w() as int, src.h() as int, t, x, y).0,
            turned_source(src.w() as int, src.h() as int, t, x, y).1,
            c,
        )
}

/// `turns` modulo 4, in 0..4.
fn quarter_of(turns: i32) -> (r: i32)
    ensures
        r == turns_mod4(turns as int),
        0 <= r < 4,
{
    if turns >= 0 {
        turns % 4
    } else {
        let back: i32 = -(turns + 1);
        let r = 3 - back % 4;
        assert(r == turns % 4) by (nonlinear_arith)
            requires back == -(turns + 1), back >= 0, r == 3 - back % 4, turns < 0;
        r
    }
}

/// Exact quarter turns clockwise: a pure remap, no interpolation and no
/// loss. `turns` is taken modulo 4.
pub fn rotate_quarters(img: &RgbaBuffer, turns: i32) -> (r: RgbaBuffer)
    requires
        img.wf(),
    ensures
        is_turned(*img, r, turns_mod4(turns as int)),
{
    let t = quarter_of(turns);
    let _ = img.data.len();
    let w = img.width;
    let h = img.height;
    let (nw, nh): (u32, u32) = if t % 2 == 1 { (h, w) } else { (w, h) };
    proof {
        assert(nw as int * nh as int == w as int * h as int) by (nonlinear_arith)
            requires (nw == h && nh == w) || (nw == w && nh == h);
    }
    let ghost src = *img;
    let mut data: Vec<u8> = Vec::new();
    let mut dy: u32 = 0;
    while dy < nh
        invariant
            0 <= dy <= nh,
            img.wf(),
            src == *img,
            w == img.w() && h == img.h(),
            0 <= t < 4,
            (t % 2 == 1 ==> nw == h && nh == w),
            (t % 2 != 1 ==> nw == w && nh == h),
            nw as int * nh as int == w as int * h as int,
            w as int * h as int * 4 <= usize::MAX,
            data@.len() == dy as int * nw as int * 4,
            forall|x: int, y: int, c: int| 0 <= x < nw && 0 <= y < dy && 0 <= c < 4 ==>
                #[trigger] data@[offset(nw as int, x, y) + c] == src.byte_at(
                    turned_source(w as int, h as int, t as int, x, y).0,
                    turned_source(w as int, h as int, t as int, x, y).1,
                    c,
                ),
        decreases nh - dy,
    {
        let mut dx: u32 = 0;
        while dx < nw
            invariant
                0 <= dx <= nw,
                0 <= dy < nh,
                img.wf(),
                src == *img,
                w == img.w() && h == img.h(),
                0 <= t < 4,
                (t % 2 == 1 ==> nw == h && nh == w),
                (t % 2 != 1 ==> nw == w && nh == h),
                nw as int * nh as int == w as int * h as int,
                w as int * h as int * 4 <= usize::MAX,
                data@.len() == offset(nw as int, dx as int, dy as int),
                forall|x: int, y: int, c: int| 0 <= x < nw && 0 <= y < dy && 0 <= c < 4 ==>
                    #[trigger] data@[offset(nw as int, x, y) + c] == src.byte_at(
                        turned_source(w as int, h as int, t as int, x, y).0,
                        turned_source(w as int, h as int, t as int, x, y).1,
                        c,
                    ),
                forall|x: int, c: int| 0 <= x < dx && 0 <= c < 4 ==>
                    #[trigger] data@[offset(nw as int, x, dy as int) + c] == src.byte_at(
                        turned_source(w as int, h as int, t as int, x, dy as int).0,
                        turned_source(w as int, h as int, t as int, x, dy as int).1,
                        c,
                    ),
            decreases nw - dx,
        {
            let (sx, sy): (u32, u32) = if t == 0 {
                (dx, dy)
            } else if t == 1 {
                (dy, h - 1 - dx)
            } else if t == 2 {
                (w - 1 - dx, h - 1 - dy)
            } else {
                (w - 1 - dy, dx)
            };
            assert((sx as int, sy as int) == turned_source(w as int, h as int, t as int, dx as int, dy as int));
            proof { lemma_offset_bounds(w as int, h as int, sx as int, sy as int); }
            let o = pixel_offset(w, h, sx, sy);
            let ghost before = data@;
            data.push(img.data[o]);
            data.push(img.data[o + 1]);
            data.push(img.data[o + 2]);
            data.push(img.data[o + 3]);
            proof {
                assert(offset(nw as int, dx as int + 1, dy as int) == offset(nw as int, dx as int, dy as int) + 4);
                assert forall|x: int, y: int, c: int| 0 <= x < nw && 0 <= y < dy && 0 <= c < 4 implies
                    #[trigger] data@[offset(nw as int, x, y) + c] == src.byte_at(
                        turned_source(w as int, h as int, t as int, x, y).0,
                        turned_source(w as int, h as int, t as int, x, y).1,
                        c,
                    ) by {
                    lemma_offset_bounds(nw as int, dy as int, x, y);
                    assert(nw as int * dy as int == dy as int * nw as int) by (nonlinear_arith);
                    assert(offset(nw as int, x, y) + 4 <= dy as int * nw as int * 4);
                    assert(dy as int * nw as int * 4 <= offset(nw as int, dx as int, dy as int)) by (nonlinear_arith)
                        requires dx >= 0, nw >= 0;
                    assert(data@[offset(nw as int, x, y) + c] == before[offset(nw as int, x, y) + c]);
                }
                assert forall|x: int, c: int| 0 <= x < dx + 1 && 0 <= c < 4 implies
                    #[trigger] data@[offset(nw as int, x, dy as int) + c] == src.byte_at(
                        turned_source(w as int, h as int, t as int, x, dy as int).0,
                        turned_source(w as int, h as int, t as int, x, dy as int).1,
                        c,
                    ) by {
                    if x < dx {
                        assert(offset(nw as int, x, dy as int) + 4 <= offset(nw as int, dx as int, dy as int));
                        assert(data@[offset(nw as int, x, dy as int) + c] == before[offset(nw as int, x, dy as int) + c]);
                    } else {
                        assert(src.byte_at(sx as int, sy as int, c) == img.data@[o + c]);
                    }
                }
            }
            dx += 1;
        }
        proof {
            lemma_row_step(nw as int, dy as int);
            assert(offset(nw as int, nw as int, dy as int) == (dy as int + 1) * nw as int * 4);
        }
        dy += 1;
    }
    proof {
        assert(data@.len() == nw as int * nh as int * 4) by (nonlinear_arith)
            requires data@.len() == dy as int * nw as int * 4, dy == nh;
    }
    RgbaBuffer { width: nw, height: nh, data }
}

/// Four quarter turns give back the original raster exactly.
pub proof fn lemma_four_quarter_turns_are_identity(a: RgbaBuffer, b: RgbaBuffer, c: RgbaBuffer, d: RgbaBuffer, e: RgbaBuffer)
    requires
        a.wf(),
        is_turned(a, b, 1),
        is_turned(b, c, 1),
        is_turned(c, d, 1),
        is_turned(d, e, 1),
    ensures
        e.w() == a.w(),
        e.h() == a.h(),
        e.bytes() == a.bytes(),
{
    let w = a.w() as int;
    let h = a.h() as int;
    assert forall|x: int, y: int, ch: int| 0 <= x < w && 0 <= y < h && 0 <= ch < 4 implies
        #[trigger] e.byte_at(x, y, ch) == a.byte_at(x, y, ch) by {
        assert(e.byte_at(x, y, ch) == d.byte_at(y, w - 1 - x, ch));
        assert(d.byte_at(y, w - 1 - x, ch) == c.byte_at(w - 1 - x, h - 1 - y, ch));
        assert(c.byte_at(w - 1 - x, h - 1 - y, ch) == b.byte_at(h - 1 - y, x, ch));
        assert(b.byte_at(h - 1 - y, x, ch) == a.byte_at(x, y, ch));
    }
    if w > 0 {
        assert forall|k: int| 0 <= k < a.bytes().len() implies #[trigger] e.bytes()[k] == a.bytes()[k] by {
            lemma_byte_decomposes(w, h, k);
            let x = (k / 4) % w;
            let y = (k / 4) / w;
            assert(e.byte_at(x, y, k % 4) == a.byte_at(x, y, k % 4));
        }
        assert(e.bytes() =~= a.bytes());
    } else {
        assert(a.bytes().len() == 0);
        assert(e.bytes().len() == 0) by {
            assert(e.w() * e.h() * 4 == 0) by (nonlinear_arith)
                requires e.w() == 0;
        }
        assert(e.bytes() =~= a.bytes());
    }
}

/// Taking the turns modulo 4: turning by `t` and by `t + 4 k` agree.
pub proof fn lemma_quarter_turns_wrap(t: int, k: int)
    ensures
        turns_mod4(t + 4 * k) == turns_mod4(t),
        0 <= turns_mod4(t) < 4,
{
    assert((t + 4 * k) % 4 == t % 4) by (nonlinear_arith);
}


// ---------------------------------------------------------------------------
// Histograms
// ---------------------------------------------------------------------------

pub open spec fn max3(a: u8, b: u8, c: u8) -> u8 {
    let ab = if a >= b { a } else { b };
    if ab >= c { ab } else { c }
}

/// The value of pixel `p`: its largest colour channel.
pub open spec fn value_of(b: Seq<u8>, p: int) -> u8 {
    max3(b[4 * p], b[4 * p + 1], b[4 * p + 2])
}

/// Among the first `n` pixels, how many have value `v`.
pub open spec fn count_value(b: Seq<u8>, n: int, v: int) -> nat
    decreases n,
{
    if n <= 0 {
        0
    } else {
        count_value(b, n - 1, v) + if value_of(b, n - 1) == v { 1nat } else { 0nat }
    }
}

/// Among the first `n` pixels, how many have channel `c` equal to `v`.
pub open spec fn count_channel(b: Seq<u8>, n: int, c: int, v: int) -> nat
    decreases n,
{
    if n <= 0 {
        0
    } else {
        count_channel(b, n - 1, c, v) + if b[4 * (n - 1) + c] == v { 1nat } else { 0nat }
    }
}

/// Value-channel histogram: bin `v` counts the pixels whose largest colour
/// channel is `v`.
pub fn histogram_value(img: &RgbaBuffer) -> (r: Vec<u32>)
    requires
        img.wf(),
        img.w() * img.h() <= u32::MAX,
    ensures
        r@.len() == 256,
        forall|v: int| 0 <= v < 256 ==> #[trigger] r@[v] == count_value(img.bytes(), (img.w() * img.h()) as int, v),
{
    let len = img.data.len();
    let n = len / 4;
    let mut hist: Vec<u32> = vec![0u32; 256];
    let mut p: usize = 0;
    while p < n
        invariant
            0 <= p <= n,
            n == img.w() * img.h(),
            n <= u32::MAX,
            img.data@.len() == n * 4,
            len == img.data@.len(),
            hist@.len() == 256,
            forall|v: int| 0 <= v < 256 ==> #[trigger] hist@[v] == count_value(img.data@, p as int, v),
            forall|v: int| 0 <= v < 256 ==> #[trigger] hist@[v] <= p,
        decreases n - p,
    {
        let a = img.data[4 * p];
        let b = img.data[4 * p + 1];
        let c = img.data[4 * p + 2];
        let ab = if a >= b { a } else { b };
        let v = if ab >= c { ab } else { c };
        assert(v == value_of(img.data@, p as int));
        let old_count = hist[v as usize];
        hist.set(v as usize, old_count + 1);
        p += 1;
    }
    hist
}

/// Histogram of colour channel `c` (0 red, 1 green, 2 blue).
pub fn histogram_channel(img: &RgbaBuffer, c: usize) -> (r: Vec<u32>)
    requires
        img.wf(),
        img.w() * img.h() <= u32::MAX,
        c < 3,
    ensures
        r@.len() == 256,
        forall|v: int| 0 <= v < 256 ==> #[trigger] r@[v] == count_channel(img.bytes(), (img.w() * img.h()) as int, c as int, v),
{
    let len = img.data.len();
    let n = len / 4;
    let mut hist: Vec<u32> = vec![0u32; 256];
    let mut p: usize = 0;
    while p < n
        invariant
            0 <= p <= n,
            c < 3,
            n == img.w() * img.h(),
            n <= u32::MAX,
            img.data@.len() == n * 4,
            len == img.data@.len(),
            hist@.len() == 256,
            forall|v: int| 0 <= v < 256 ==> #[trigger] hist@[v] == count_channel(img.data@, p as int, c as int, v),
            forall|v: int| 0 <= v < 256 ==> #[trigger] hist@[v] <= p,
        decreases n - p,
    {
        let v = img.data[4 * p + c];
        let old_count = hist[v as usize];
        hist.set(v as usize, old_count + 1);
        p += 1;
    }
    hist
}

/// Lowest non-empty bin (0 when there is none) and highest non-empty bin
/// (255 when there is none): the automatic black and white points.
pub fn nonzero_bounds(hist: &Vec<u32>) -> (r: (u8, u8))
    requires
        hist@.len() == 256,
    ensures
        (exists|i: int| 0 <= i < 256 && hist@[i] > 0) ==> {
            &&& hist@[r.0 as int] > 0
            &&& forall|j: int| 0 <= j < r.0 ==> hist@[j] == 0
            &&& hist@[r.1 as int] > 0
            &&& forall|j: int| r.1 < j < 256 ==> hist@[j] == 0
        },
        (forall|i: int| 0 <= i < 256 ==> hist@[i] == 0) ==> r == (0u8, 255u8),
{
    let mut i: usize = 0;
    while i < 256 && hist[i] == 0
        invariant
            0 <= i <= 256,
            hist@.len() == 256,
            forall|j: int| 0 <= j < i ==> hist@[j] == 0,
        decreases 256 - i,
    {
        i += 1;
    }
    let low: u8 = if i < 256 { i as u8 } else { 0 };
    let mut k: usize = 256;
    while k > 0 && hist[k - 1] == 0
        invariant
            0 <= k <= 256,
            hist@.len() == 256,
            forall|j: int| k <= j < 256 ==> hist@[j] == 0,
        decreases k,
    {
        k -= 1;
    }
    let high: u8 = if k > 0 { (k - 1) as u8 } else { 255 };
    (low, high)
}

/// Sum of bins `a..b`.
pub open spec fn bin_sum(h: Seq<u32>, a: int, b: int) -> nat
    decreases b - a,
{
    if b <= a {
        0
    } else {
        bin_sum(h, a, b - 1) + h[b - 1] as nat
    }
}

/// Sum of bins `0..=i`.
pub open spec fn total_through(h: Seq<u32>, i: int) -> nat {
    bin_sum(h, 0, i + 1)
}

/// Pixels among the first `n` whose value is below `k`.
spec fn values_below(b: Seq<u8>, n: int, k: int) -> nat
    decreases k,
{
    if k <= 0 { 0 } else { values_below(b, n, k - 1) + count_value(b, n, k - 1) }
}

/// Pixels among the first `n` whose channel `c` is below `k`.
spec fn channel_below(b: Seq<u8>, n: int, c: int, k: int) -> nat
    decreases k,
{
    if k <= 0 { 0 } else { channel_below(b, n, c, k - 1) + count_channel(b, n, c, k - 1) }
}

proof fn lemma_values_below_none(b: Seq<u8>, k: int)
    ensures
        values_below(b, 0, k) == 0,
    decreases k,
{
    if k > 0 {
        lemma_values_below_none(b, k - 1);
    }
}

proof fn lemma_channel_below_none(b: Seq<u8>, c: int, k: int)
    ensures
        channel_below(b, 0, c, k) == 0,
    decreases k,
{
    if k > 0 {
        lemma_channel_below_none(b, c, k - 1);
    }
}

proof fn lemma_values_below_step(b: Seq<u8>, n: int, k: int)
    requires
        n > 0,
    ensures
        values_below(b, n, k) == values_below(b, n - 1, k) + (if (value_of(b, n - 1) as int) < k { 1nat } else { 0nat }),
    decreases k,
{
    if k > 0 {
        lemma_values_below_step(b, n, k - 1);
    }
}

proof fn lemma_channel_below_step(b: Seq<u8>, n: int, c: int, k: int)
    requires
        n > 0,
    ensures
        channel_below(b, n, c, k) == channel_below(b, n - 1, c, k) + (if (b[4 * (n - 1) + c] as int) < k { 1nat } else { 0nat }),
    decreases k,
{
    if k > 0 {
        lemma_channel_below_step(b, n, c, k - 1);
    }
}

proof fn lemma_values_below_all(b: Seq<u8>, n: int)
    requires
        n >= 0,
    ensures
        values_below(b, n, 256) == n,
    decreases n,
{
    if n > 0 {
        lemma_values_below_all(b, n - 1);
        lemma_values_below_step(b, n, 256);
    } else {
        lemma_values_below_none(b, 256);
    }
}

proof fn lemma_channel_below_all(b: Seq<u8>, n: int, c: int)
    requires
        n >= 0,
    ensures
        channel_below(b, n, c, 256) == n,
    decreases n,
{
    if n > 0 {
        lemma_channel_below_all(b, n - 1, c);
        lemma_channel_below_step(b, n, c, 256);
    } else {
        lemma_channel_below_none(b, c, 256);
    }
}

proof fn lemma_bins_are_value_counts(h: Seq<u32>, b: Seq<u8>, n: int, k: int)
    requires
        0 <= k <= h.len(),
        forall|v: int| 0 <= v < k ==> #[trigger] h[v] == count_value(b, n, v),
    ensures
        bin_sum(h, 0, k) == values_below(b, n, k),
    decreases k,
{
    if k > 0 {
        lemma_bins_are_value_counts(h, b, n, k - 1);
    }
}

proof fn lemma_bins_are_channel_counts(h: Seq<u32>, b: Seq<u8>, n: int, c: int, k: int)
    requires
        0 <= k <= h.len(),
        forall|v: int| 0 <= v < k ==> #[trigger] h[v] == count_channel(b, n, c, v),
    ensures
        bin_sum(h, 0, k) == channel_below(b, n, c, k),
    decreases k,
{
    if k > 0 {
        lemma_bins_are_channel_counts(h, b, n, c, k - 1);
    }
}

/// Every pixel is counted in exactly one bin: the bins of a value
/// histogram add up to the number of pixels.
pub proof fn lemma_value_bins_count_every_pixel(img: RgbaBuffer, hist: Seq<u32>)
    requires
        hist.len() == 256,
        forall|v: int| 0 <= v < 256 ==> #[trigger] hist[v] == count_value(img.bytes(), (img.w() * img.h()) as int, v),
    ensures
        bin_sum(hist, 0, 256) == img.w() * img.h(),
{
    let n = (img.w() * img.h()) as int;
    lemma_bins_are_value_counts(hist, img.bytes(), n, 256);
    lemma_values_below_all(img.bytes(), n);
}

/// Every pixel is counted in exactly one bin: the bins of a channel
/// histogram add up to the number of pixels.
pub proof fn lemma_channel_bins_count_every_pixel(img: RgbaBuffer, c: int, hist: Seq<u32>)
    requires
        hist.len() == 256,
        forall|v: int| 0 <= v < 256 ==> #[trigger] hist[v] == count_channel(img.bytes(), (img.w() * img.h()) as int, c, v),
    ensures
        bin_sum(hist, 0, 256) == img.w() * img.h(),
{
    let n = (img.w() * img.h()) as int;
    lemma_bins_are_channel_counts(hist, img.bytes(), n, c, 256);
    lemma_channel_below_all(img.bytes(), n, c);
}

/// Sum of bins `a..256`, counted from the top.
pub open spec fn bin_sum_from(h: Seq<u32>, a: int) -> nat
    decreases 256 - a,
{
    if a >= 256 {
        0
    } else {
        bin_sum_from(h, a + 1) + h[a] as nat
    }
}

/// The first bin at which the running total from the bottom reaches `need`
/// (0 when none does), and the last bin at which the running total from the
/// top reaches it (255 when none does): the black and white points after
/// discarding fewer than `need` pixels from each tail.
pub fn bounds_reaching(hist: &Vec<u32>, need: u64) -> (r: (u8, u8))
    requires
        hist@.len() == 256,
    ensures
        (exists|i: int| 0 <= i < 256 && total_through(hist@, i) >= need) ==> {
            &&& total_through(hist@, r.0 as int) >= need
            &&& forall|j: int| 0 <= j < r.0 ==> total_through(hist@, j) < need
        },
        (forall|i: int| 0 <= i < 256 ==> total_through(hist@, i) < need) ==> r.0 == 0,
        (exists|i: int| 0 <= i < 256 && bin_sum_from(hist@, i) >= need) ==> {
            &&& bin_sum_from(hist@, r.1 as int) >= need
            &&& forall|j: int| r.1 < j < 256 ==> bin_sum_from(hist@, j) < need
        },
        (forall|i: int| 0 <= i < 256 ==> bin_sum_from(hist@, i) < need) ==> r.1 == 255,
{
    let mut acc: u64 = 0;
    let mut i: usize = 0;
    while i < 256 && acc + (hist[i] as u64) < need
        invariant
            0 <= i <= 256,
            hist@.len() == 256,
            acc == bin_sum(hist@, 0, i as int),
            acc <= i * 0xffff_ffff,
            forall|j: int| 0 <= j < i ==> #[trigger] total_through(hist@, j) < need,
        decreases 256 - i,
    {
        acc = acc + hist[i] as u64;
        i += 1;
    }
    let low: u8 = if i < 256 { i as u8 } else { 0 };
    let mut acc: u64 = 0;
    let mut k: usize = 256;
    while k > 0 && acc + (hist[k - 1] as u64) < need
        invariant
            0 <= k <= 256,
            hist@.len() == 256,
            acc == bin_sum_from(hist@, k as int),
            acc <= (256 - k) * 0xffff_ffff,
            forall|j: int| k <= j < 256 ==> #[trigger] bin_sum_from(hist@, j) < need,
        decreases k,
    {
        acc = acc + hist[k - 1] as u64;
        k -= 1;
    }
    let high: u8 = if k > 0 { (k - 1) as u8 } else { 255 };
    (low, high)
}

// ---------------------------------------------------------------------------
// Per-channel lookup tables
// ---------------------------------------------------------------------------

/// Byte `k` after mapping red, green and blue through their tables; alpha
/// is kept.
pub open spec fn mapped_byte(before: Seq<u8>, k: int, red: Seq<u8>, green: Seq<u8>, blue: Seq<u8>) -> u8 {
    if k % 4 == 0 {
        red[before[k] as int]
    } else if k % 4 == 1 {
        green[before[k] as int]
    } else if k % 4 == 2 {
        blue[before[k] as int]
    } else {
        before[k]
    }
}

/// Map each colour channel through its own 256-entry table, leaving alpha.
pub fn apply_channel_luts(img: &mut RgbaBuffer, red: &Vec<u8>, green: &Vec<u8>, blue: &Vec<u8>)
    requires
        old(img).wf(),
        red@.len() == 256,
        green@.len() == 256,
        blue@.len() == 256,
    ensures
        final(img).wf(),
        final(img).w() == old(img).w(),
        final(img).h() == old(img).h(),
        final(img).bytes().len() == old(img).bytes().len(),
        forall|k: int| 0 <= k < old(img).bytes().len() ==>
            #[trigger] final(img).bytes()[k] == mapped_byte(old(img).bytes(), k, red@, green@, blue@),
{
    let len = img.data.len();
    let n = len / 4;
    let ghost before = img.data@;
    let mut p: usize = 0;
    while p < n
        invariant
            0 <= p <= n,
            len == before.len(),
            n * 4 == len,
            img.data@.len() == len,
            img.width == old(img).width,
            img.height == old(img).height,
            before == old(img).data@,
            red@.len() == 256,
            green@.len() == 256,
            blue@.len() == 256,
            forall|k: int| 0 <= k < 4 * p ==> #[trigger] img.data@[k] == mapped_byte(before, k, red@, green@, blue@),
            forall|k: int| 4 * p <= k < len ==> #[trigger] img.data@[k] == before[k],
        decreases n - p,
    {
        let o = 4 * p;
        let r = red[img.data[o] as usize];
        img.data.set(o, r);
        let g = green[img.data[o + 1] as usize];
        img.data.set(o + 1, g);
        let b = blue[img.data[o + 2] as usize];
        img.data.set(o + 2, b);
        proof {
            assert forall|k: int| 0 <= k < 4 * (p + 1) implies
                #[trigger] img.data@[k] == mapped_byte(before, k, red@, green@, blue@) by {
                if k >= 4 * p {
                    assert(k % 4 == k - 4 * p);
                }
            }
        }
        p += 1;
    }
}

} // verus!
