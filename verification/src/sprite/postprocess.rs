use std::collections::VecDeque;
use std::io::Cursor;
use image::imageops::FilterType;
use image::{ImageReader, RgbaImage};
use vstd::prelude::*;
use crate::sprite::error::SpriteGenError;

verus! {

/// An 8-bit RGBA pixel.
#[derive(Debug, Clone, Copy, PartialEq, Eq, Structural)]
pub struct Rgba {
    pub r: u8,
    pub g: u8,
    pub b: u8,
    pub a: u8,
}

/// A fully transparent black pixel.
pub open spec fn transparent() -> Rgba {
    Rgba { r: 0, g: 0, b: 0, a: 0 }
}

/// An RGBA image, pixels in row-major order.
#[derive(Debug, Clone)]
pub struct SpriteImage {
    pub width: u32,
    pub height: u32,
    pub pixels: Vec<Rgba>,
}

/// Flat position of pixel (x, y) in a row-major image of width `w`.
pub open spec fn cell(w: int, x: int, y: int) -> int {
    y * w + x
}

/// (x, y) lies inside a `w` by `h` image.
pub open spec fn in_grid(w: int, h: int, x: int, y: int) -> bool {
    0 <= x < w && 0 <= y < h
}

/// (x, y) lies on the outer ring of a `w` by `h` image.
pub open spec fn on_edge(w: int, h: int, x: int, y: int) -> bool {
    x == 0 || y == 0 || x == w - 1 || y == h - 1
}

/// Pixel (x, y) of row-major pixels `px` of width `w`.
pub open spec fn at(px: Seq<Rgba>, w: int, x: int, y: int) -> Rgba {
    px[cell(w, x, y)]
}

impl SpriteImage {
    /// The pixel vector holds exactly `width * height` pixels, a number that
    /// fits in `u32`.
    pub open spec fn wf(&self) -> bool {
        &&& self.width * self.height <= u32::MAX
        &&& self.pixels@.len() == self.width * self.height
    }

    pub open spec fn pixel(&self, x: int, y: int) -> Rgba {
        at(self.pixels@, self.width as int, x, y)
    }
}

pub proof fn lemma_cell_in_grid(w: int, h: int, x: int, y: int)
    requires
        in_grid(w, h, x, y),
    ensures
        0 <= cell(w, x, y) < w * h,
        cell(w, x, y) % w == x,
        cell(w, x, y) / w == y,
{
    assert(0 <= y * w) by (nonlinear_arith)
        requires
            0 <= y,
            0 < w,
    ;
    assert(y * w + x < w * h) by (nonlinear_arith)
        requires
            0 <= x < w,
            0 <= y < h,
    ;
    vstd::arithmetic::div_mod::lemma_fundamental_div_mod_converse(y * w + x, w, y, x);
}

pub proof fn lemma_cell_injective(w: int, x1: int, y1: int, x2: int, y2: int)
    requires
        0 <= x1 < w,
        0 <= x2 < w,
        0 <= y1,
        0 <= y2,
        cell(w, x1, y1) == cell(w, x2, y2),
    ensures
        x1 == x2,
        y1 == y2,
{
    vstd::arithmetic::div_mod::lemma_fundamental_div_mod_converse(y1 * w + x1, w, y1, x1);
    vstd::arithmetic::div_mod::lemma_fundamental_div_mod_converse(y2 * w + x2, w, y2, x2);
}

/// The byte layout of a pixel vector: r, g, b, a for each pixel in turn.
pub open spec fn rgba_bytes(px: Seq<Rgba>) -> Seq<u8>
    decreases px.len(),
{
    if px.len() == 0 {
        Seq::empty()
    } else {
        let p = px.last();
        rgba_bytes(px.drop_last()) + seq![p.r, p.g, p.b, p.a]
    }
}

proof fn lemma_rgba_bytes(px: Seq<Rgba>)
    ensures
        rgba_bytes(px).len() == 4 * px.len(),
        forall|i: int| 0 <= i < px.len() ==> {
            &&& #[trigger] rgba_bytes(px)[4 * i] == px[i].r
            &&& rgba_bytes(px)[4 * i + 1] == px[i].g
            &&& rgba_bytes(px)[4 * i + 2] == px[i].b
            &&& rgba_bytes(px)[4 * i + 3] == px[i].a
        },
    decreases px.len(),
{
    if px.len() > 0 {
        lemma_rgba_bytes(px.drop_last());
        assert forall|i: int| 0 <= i < px.len() implies {
            &&& #[trigger] rgba_bytes(px)[4 * i] == px[i].r
            &&& rgba_bytes(px)[4 * i + 1] == px[i].g
            &&& rgba_bytes(px)[4 * i + 2] == px[i].b
            &&& rgba_bytes(px)[4 * i + 3] == px[i].a
        } by {
            let d = px.drop_last();
            let q = px.last();
            assert(rgba_bytes(px) == rgba_bytes(d) + seq![q.r, q.g, q.b, q.a]);
            if i < px.len() - 1 {
                assert(d[i] == px[i]);
                assert(rgba_bytes(d)[4 * i] == d[i].r);
            }
        }
    }
}

impl SpriteImage {
    /// Reads `width * height` pixels from RGBA bytes; `None` unless `raw`
    /// holds exactly that many pixels and `width * height` fits in `u32`.
    pub fn from_rgba_bytes(width: u32, height: u32, raw: &[u8]) -> (r: Option<SpriteImage>)
        ensures
            r is Some <==> (width * height <= u32::MAX && raw@.len() == 4 * (width * height)),
            r matches Some(img) ==> {
                &&& img.wf()
                &&& img.width == width
                &&& img.height == height
                &&& rgba_bytes(img.pixels@) == raw@
            },
    {
        assert((width as u64) * (height as u64) <= u64::MAX) by (nonlinear_arith)
            requires
                width <= u32::MAX,
                height <= u32::MAX,
        ;
        let n64: u64 = width as u64 * height as u64;
        if n64 > u32::MAX as u64 || raw.len() as u64 != 4 * n64 {
            return None;
        }
        let n = n64 as usize;
        assert(raw@.len() == 4 * n);
        let mut pixels: Vec<Rgba> = Vec::new();
        let mut i: usize = 0;
        while i < n
            invariant
                n == width * height,
                raw@.len() == 4 * n,
                raw.len() == 4 * n,
                i <= n,
                pixels@.len() == i,
                rgba_bytes(pixels@) == raw@.take(4 * i as int),
            decreases n - i,
        {
            let p = Rgba { r: raw[4 * i], g: raw[4 * i + 1], b: raw[4 * i + 2], a: raw[4 * i + 3] };
            proof {
                assert(pixels@.push(p).drop_last() =~= pixels@);
                assert(raw@.take(4 * i + 4) =~= raw@.take(4 * i as int) + seq![p.r, p.g, p.b, p.a]);
            }
            pixels.push(p);
            i = i + 1;
        }
        assert(raw@.take(4 * n as int) =~= raw@);
        Some(SpriteImage { width, height, pixels })
    }

    /// The pixels as RGBA bytes, row by row.
    pub fn to_rgba_bytes(&self) -> (r: Vec<u8>)
        requires
            self.wf(),
        ensures
            r@ == rgba_bytes(self.pixels@),
    {
        let mut r: Vec<u8> = Vec::new();
        let mut i: usize = 0;
        while i < self.pixels.len()
            invariant
                self.wf(),
                i <= self.pixels@.len(),
                r@ == rgba_bytes(self.pixels@.take(i as int)),
            decreases self.pixels.len() - i,
        {
            let p = self.pixels[i];
            assert(self.pixels@.take(i + 1).drop_last() =~= self.pixels@.take(i as int));
            r.push(p.r);
            r.push(p.g);
            r.push(p.b);
            r.push(p.a);
            assert(r@ =~= rgba_bytes(self.pixels@.take(i as int)) + seq![p.r, p.g, p.b, p.a]);
            i = i + 1;
        }
        assert(self.pixels@.take(self.pixels@.len() as int) =~= self.pixels@);
        r
    }
}

/// Writing an image out as bytes and reading it back gives the same image.
pub proof fn lemma_rgba_bytes_injective(a: Seq<Rgba>, b: Seq<Rgba>)
    requires
        rgba_bytes(a) == rgba_bytes(b),
    ensures
        a == b,
{
    lemma_rgba_bytes(a);
    lemma_rgba_bytes(b);
    assert(a.len() == b.len());
    assert forall|i: int| 0 <= i < a.len() implies a[i] == b[i] by {
        assert(rgba_bytes(a)[4 * i] == a[i].r);
        assert(rgba_bytes(b)[4 * i] == b[i].r);
        assert(rgba_bytes(a)[4 * i + 1] == rgba_bytes(b)[4 * i + 1]);
        assert(rgba_bytes(a)[4 * i + 2] == rgba_bytes(b)[4 * i + 2]);
        assert(rgba_bytes(a)[4 * i + 3] == rgba_bytes(b)[4 * i + 3]);
    }
    assert(a =~= b);
}

/// Squared Euclidean distance between the RGB parts of two pixels.
pub open spec fn spec_color_distance_sq(a: Rgba, b: Rgba) -> int {
    (a.r - b.r) * (a.r - b.r) + (a.g - b.g) * (a.g - b.g) + (a.b - b.b) * (a.b - b.b)
}

/// A pixel counts as background when its squared distance to the
/// background colour is below `threshold_sq`.
pub open spec fn near_bg(p: Rgba, bg: Rgba, threshold_sq: int) -> bool {
    spec_color_distance_sq(p, bg) < threshold_sq
}

pub fn color_distance_sq(a: &Rgba, b: &Rgba) -> (r: u32)
    ensures
        r == spec_color_distance_sq(*a, *b),
{
    let dr: i32 = a.r as i32 - b.r as i32;
    let dg: i32 = a.g as i32 - b.g as i32;
    let db: i32 = a.b as i32 - b.b as i32;
    assert(0 <= dr * dr <= 65025 && 0 <= dg * dg <= 65025 && 0 <= db * db <= 65025) by (nonlinear_arith)
        requires
            -255 <= dr <= 255,
            -255 <= dg <= 255,
            -255 <= db <= 255,
    ;
    (dr * dr + dg * dg + db * db) as u32
}

/// The in-image 4-neighbours of (x, y): left, right, up, down.
pub open spec fn spec_neighbors(x: u32, y: u32, w: u32, h: u32) -> Seq<(u32, u32)> {
    (if x > 0 { seq![((x - 1) as u32, y)] } else { Seq::empty() })
        + (if x + 1 < w { seq![((x + 1) as u32, y)] } else { Seq::empty() })
        + (if y > 0 { seq![(x, (y - 1) as u32)] } else { Seq::empty() })
        + (if y + 1 < h { seq![(x, (y + 1) as u32)] } else { Seq::empty() })
}

pub fn neighbors(x: u32, y: u32, w: u32, h: u32) -> (r: Vec<(u32, u32)>)
    requires
        x < w,
        y < h,
    ensures
        r@ == spec_neighbors(x, y, w, h),
{
    let mut r: Vec<(u32, u32)> = Vec::new();
    if x > 0 {
        r.push((x - 1, y));
    }
    if x + 1 < w {
        r.push((x + 1, y));
    }
    if y > 0 {
        r.push((x, y - 1));
    }
    if y + 1 < h {
        r.push((x, y + 1));
    }
    assert(r@ =~= spec_neighbors(x, y, w, h));
    r
}

/// The largest centred square of a `w` by `h` image: `(x offset, y offset, side)`.
pub fn center_square(w: u32, h: u32) -> (r: (u32, u32, u32))
    ensures
        r.2 == if w <= h { w } else { h },
        r.0 == (w - r.2) / 2,
        r.1 == (h - r.2) / 2,
{
    let side = if w <= h { w } else { h };
    ((w - side) / 2, (h - side) / 2, side)
}

/// Red, green or blue component of a pixel (0, 1, 2).
pub open spec fn channel(p: Rgba, ch: int) -> int {
    if ch == 0 {
        p.r as int
    } else if ch == 1 {
        p.g as int
    } else {
        p.b as int
    }
}

/// Sum of component `ch` over the edge pixels among the first `n` of row `y`.
pub open spec fn row_edge_sum(px: Seq<Rgba>, w: int, h: int, ch: int, y: int, n: int) -> int
    decreases n,
{
    if n <= 0 {
        0
    } else {
        row_edge_sum(px, w, h, ch, y, n - 1) + if on_edge(w, h, n - 1, y) {
            channel(at(px, w, n - 1, y), ch)
        } else {
            0
        }
    }
}

/// Number of edge pixels among the first `n` of row `y`.
pub open spec fn row_edge_count(w: int, h: int, y: int, n: int) -> int
    decreases n,
{
    if n <= 0 {
        0
    } else {
        row_edge_count(w, h, y, n - 1) + if on_edge(w, h, n - 1, y) { 1int } else { 0int }
    }
}

/// Sum of component `ch` over the edge pixels of rows `0..m`.
pub open spec fn edge_sum(px: Seq<Rgba>, w: int, h: int, ch: int, m: int) -> int
    decreases m,
{
    if m <= 0 {
        0
    } else {
        edge_sum(px, w, h, ch, m - 1) + row_edge_sum(px, w, h, ch, m - 1, w)
    }
}

/// Number of edge pixels in rows `0..m`.
pub open spec fn edge_count(w: int, h: int, m: int) -> int
    decreases m,
{
    if m <= 0 {
        0
    } else {
        edge_count(w, h, m - 1) + row_edge_count(w, h, m - 1, w)
    }
}

/// The background colour of an image: the mean of each component over its
/// edge pixels (rounded down), opaque; white for an empty image.
pub open spec fn spec_background(img: SpriteImage) -> Rgba {
    let w = img.width as int;
    let h = img.height as int;
    let px = img.pixels@;
    if w == 0 || h == 0 {
        Rgba { r: 255, g: 255, b: 255, a: 255 }
    } else {
        let c = edge_count(w, h, h);
        Rgba {
            r: (edge_sum(px, w, h, 0, h) / c) as u8,
            g: (edge_sum(px, w, h, 1, h) / c) as u8,
            b: (edge_sum(px, w, h, 2, h) / c) as u8,
            a: 255,
        }
    }
}

/// In a row strictly between the first and the last, only the first and
/// the last pixel lie on the edge.
proof fn lemma_middle_row(px: Seq<Rgba>, w: int, h: int, ch: int, y: int, n: int)
    requires
        0 < y < h - 1,
        1 <= n <= w,
    ensures
        row_edge_sum(px, w, h, ch, y, n) == channel(at(px, w, 0, y), ch) + if n == w && w > 1 {
            channel(at(px, w, w - 1, y), ch)
        } else {
            0
        },
        row_edge_count(w, h, y, n) == 1 + if n == w && w > 1 { 1int } else { 0int },
    decreases n,
{
    assert(row_edge_sum(px, w, h, ch, y, 0) == 0);
    assert(row_edge_count(w, h, y, 0) == 0);
    if n > 1 {
        lemma_middle_row(px, w, h, ch, y, n - 1);
        assert(on_edge(w, h, n - 1, y) <==> n == w);
    }
}

/// Adds a pixel's components to running sums and counts it.
fn accumulate_pixel(pixel: &Rgba, r: &mut u64, g: &mut u64, b: &mut u64, count: &mut u64)
    requires
        *old(r) + 255 <= u64::MAX,
        *old(g) + 255 <= u64::MAX,
        *old(b) + 255 <= u64::MAX,
        *old(count) + 1 <= u64::MAX,
    ensures
        *final(r) == *old(r) + pixel.r,
        *final(g) == *old(g) + pixel.g,
        *final(b) == *old(b) + pixel.b,
        *final(count) == *old(count) + 1,
{
    *r = *r + pixel.r as u64;
    *g = *g + pixel.g as u64;
    *b = *b + pixel.b as u64;
    *count = *count + 1;
}

/// Estimates the background colour as the mean colour of the edge pixels.
pub fn estimate_background_color(img: &SpriteImage) -> (r: Rgba)
    requires
        img.wf(),
    ensures
        r == spec_background(*img),
{
    let w = img.width;
    let h = img.height;
    if w == 0 || h == 0 {
        return Rgba { r: 255, g: 255, b: 255, a: 255 };
    }
    let ghost px = img.pixels@;
    let mut rs: u64 = 0;
    let mut gs: u64 = 0;
    let mut bs: u64 = 0;
    let mut count: u64 = 0;
    let mut y: u32 = 0;
    while y < h
        invariant
            img.wf(),
            px == img.pixels@,
            w == img.width,
            h == img.height,
            0 < w,
            0 < h,
            y <= h,
            rs == edge_sum(px, w as int, h as int, 0, y as int),
            gs == edge_sum(px, w as int, h as int, 1, y as int),
            bs == edge_sum(px, w as int, h as int, 2, y as int),
            count == edge_count(w as int, h as int, y as int),
            count <= y * w,
            y > 0 ==> count >= 1,
            rs <= 255 * count,
            gs <= 255 * count,
            bs <= 255 * count,
        decreases h - y,
    {
        assert((y + 1) * w == y * w + w) by (nonlinear_arith);
        assert((y + 1) * w <= h * w) by (nonlinear_arith)
            requires
                y < h,
                0 < w,
        ;
        if y == 0 || y == h - 1 {
            let mut x: u32 = 0;
            while x < w
                invariant
                    img.wf(),
                    px == img.pixels@,
                    w == img.width,
                    h == img.height,
                    0 < w,
                    y < h,
                    y == 0 || y == h - 1,
                    x <= w,
                    (y + 1) * w <= h * w,
                    rs == edge_sum(px, w as int, h as int, 0, y as int) + row_edge_sum(px, w as int, h as int, 0, y as int, x as int),
                    gs == edge_sum(px, w as int, h as int, 1, y as int) + row_edge_sum(px, w as int, h as int, 1, y as int, x as int),
                    bs == edge_sum(px, w as int, h as int, 2, y as int) + row_edge_sum(px, w as int, h as int, 2, y as int, x as int),
                    count == edge_count(w as int, h as int, y as int) + row_edge_count(w as int, h as int, y as int, x as int),
                    count <= y * w + x,
                    x > 0 ==> count >= 1,
                    rs <= 255 * count,
                    gs <= 255 * count,
                    bs <= 255 * count,
                decreases w - x,
            {
                proof { lemma_cell_in_grid(w as int, h as int, x as int, y as int); }
                let i = (y * w + x) as usize;
                accumulate_pixel(&img.pixels[i], &mut rs, &mut gs, &mut bs, &mut count);
                x = x + 1;
            }
        } else {
            proof {
                lemma_cell_in_grid(w as int, h as int, 0, y as int);
                lemma_cell_in_grid(w as int, h as int, (w - 1) as int, y as int);
                lemma_middle_row(px, w as int, h as int, 0, y as int, w as int);
                lemma_middle_row(px, w as int, h as int, 1, y as int, w as int);
                lemma_middle_row(px, w as int, h as int, 2, y as int, w as int);
            }
            let i0 = (y * w) as usize;
            accumulate_pixel(&img.pixels[i0], &mut rs, &mut gs, &mut bs, &mut count);
            if w > 1 {
                let i1 = (y * w + (w - 1)) as usize;
                accumulate_pixel(&img.pixels[i1], &mut rs, &mut gs, &mut bs, &mut count);
            }
        }
        y = y + 1;
    }
    assert(rs / count <= 255 && gs / count <= 255 && bs / count <= 255) by (nonlinear_arith)
        requires
            count >= 1,
            rs <= 255 * count,
            gs <= 255 * count,
            bs <= 255 * count,
    ;
    Rgba { r: (rs / count) as u8, g: (gs / count) as u8, b: (bs / count) as u8, a: 255 }
}

/// (x, y) is reached within `n` steps from the edge: it is near the
/// background colour, and it lies on the edge or next to a pixel reached
/// within `n - 1` steps.
pub open spec fn reached(px: Seq<Rgba>, w: int, h: int, bg: Rgba, t2: int, n: nat, x: int, y: int) -> bool
    decreases n,
{
    &&& in_grid(w, h, x, y)
    &&& near_bg(at(px, w, x, y), bg, t2)
    &&& (on_edge(w, h, x, y) || (n > 0 && (
        reached(px, w, h, bg, t2, (n - 1) as nat, x - 1, y)
        || reached(px, w, h, bg, t2, (n - 1) as nat, x + 1, y)
        || reached(px, w, h, bg, t2, (n - 1) as nat, x, y - 1)
        || reached(px, w, h, bg, t2, (n - 1) as nat, x, y + 1))))
}

/// (x, y) belongs to the background region: a chain of 4-neighbours, all
/// near the background colour, leads to it from the edge of the image.
pub open spec fn cleared(px: Seq<Rgba>, w: int, h: int, bg: Rgba, t2: int, x: int, y: int) -> bool {
    exists|n: nat| #[trigger] reached(px, w, h, bg, t2, n, x, y)
}

/// `r` is `img` with its background region made transparent, the
/// background colour being that of `spec_background` and the closeness
/// bound `t2` on the squared colour distance.
pub open spec fn flood_filled(img: SpriteImage, t2: int, r: SpriteImage) -> bool {
    let w = img.width as int;
    let h = img.height as int;
    &&& r.width == img.width
    &&& r.height == img.height
    &&& r.pixels@.len() == img.pixels@.len()
    &&& forall|x: int, y: int| #![trigger r.pixel(x, y)] in_grid(w, h, x, y) ==> r.pixel(x, y) == if cleared(
        img.pixels@, w, h, spec_background(img), t2, x, y) {
        transparent()
    } else {
        img.pixel(x, y)
    }
}

/// Number of unset flags.
pub open spec fn unvisited(v: Seq<bool>) -> nat
    decreases v.len(),
{
    if v.len() == 0 {
        0
    } else {
        unvisited(v.drop_last()) + if v.last() { 0nat } else { 1nat }
    }
}

proof fn lemma_unvisited_update(v: Seq<bool>, i: int)
    requires
        0 <= i < v.len(),
        !v[i],
    ensures
        unvisited(v.update(i, true)) + 1 == unvisited(v),
    decreases v.len(),
{
    let u = v.update(i, true);
    if i == v.len() - 1 {
        assert(u.drop_last() =~= v.drop_last());
    } else {
        lemma_unvisited_update(v.drop_last(), i);
        assert(u.drop_last() =~= v.drop_last().update(i, true));
    }
}

/// (a, b) is a processed background pixel already known to be cleared.
pub open spec fn good(px: Seq<Rgba>, w: int, h: int, bg: Rgba, t2: int, done: Seq<bool>, a: int, b: int) -> bool {
    &&& in_grid(w, h, a, b)
    &&& done[cell(w, a, b)]
    &&& near_bg(at(px, w, a, b), bg, t2)
    &&& cleared(px, w, h, bg, t2, a, b)
}

/// Why (x, y) was queued: it lies on the edge, or a neighbour is good.
#[verifier::opaque]
pub open spec fn supported(px: Seq<Rgba>, w: int, h: int, bg: Rgba, t2: int, done: Seq<bool>, x: int, y: int) -> bool {
    ||| on_edge(w, h, x, y)
    ||| good(px, w, h, bg, t2, done, x - 1, y)
    ||| good(px, w, h, bg, t2, done, x + 1, y)
    ||| good(px, w, h, bg, t2, done, x, y - 1)
    ||| good(px, w, h, bg, t2, done, x, y + 1)
}

/// Every in-image 4-neighbour of (x, y) is marked.
#[verifier::opaque]
pub open spec fn nbrs_visited(w: int, h: int, visited: Seq<bool>, x: int, y: int) -> bool {
    &&& (x > 0 ==> visited[cell(w, x - 1, y)])
    &&& (x + 1 < w ==> visited[cell(w, x + 1, y)])
    &&& (y > 0 ==> visited[cell(w, x, y - 1)])
    &&& (y + 1 < h ==> visited[cell(w, x, y + 1)])
}

/// (x, y) is somewhere in the queue.
pub open spec fn in_queue(q: Seq<(u32, u32)>, x: int, y: int) -> bool {
    exists|k: int| 0 <= k < q.len() && #[trigger] q[k].0 == x && q[k].1 == y
}

/// The state of the breadth-first fill. `done` marks the pixels taken out of
/// the queue, `cur` the pixels as they stand; (sx, sy) is a pixel whose
/// neighbours are being queued.
pub open spec fn fill_inv(
    px: Seq<Rgba>, w: int, h: int, bg: Rgba, t2: int,
    visited: Seq<bool>, done: Seq<bool>, cur: Seq<Rgba>, q: Seq<(u32, u32)>, sx: int, sy: int,
) -> bool {
    &&& visited.len() == w * h
    &&& done.len() == w * h
    &&& cur.len() == w * h
    &&& px.len() == w * h
    &&& forall|k: int| #![trigger q[k]] 0 <= k < q.len() ==> {
        &&& in_grid(w, h, q[k].0 as int, q[k].1 as int)
        &&& visited[cell(w, q[k].0 as int, q[k].1 as int)]
        &&& !done[cell(w, q[k].0 as int, q[k].1 as int)]
    }
    &&& forall|k1: int, k2: int| 0 <= k1 < k2 < q.len() ==> q[k1] != q[k2]
    &&& forall|x: int, y: int| #![trigger cell(w, x, y)] in_grid(w, h, x, y) ==> {
        &&& (done[cell(w, x, y)] ==> visited[cell(w, x, y)])
        &&& (visited[cell(w, x, y)] && !done[cell(w, x, y)] ==> in_queue(q, x, y))
        &&& cur[cell(w, x, y)] == if done[cell(w, x, y)] && near_bg(px[cell(w, x, y)], bg, t2) {
            transparent()
        } else {
            px[cell(w, x, y)]
        }
        &&& (on_edge(w, h, x, y) ==> visited[cell(w, x, y)])
        &&& (visited[cell(w, x, y)] ==> supported(px, w, h, bg, t2, done, x, y))
        &&& (done[cell(w, x, y)] && near_bg(px[cell(w, x, y)], bg, t2) ==> cleared(px, w, h, bg, t2, x, y))
        &&& (done[cell(w, x, y)] && near_bg(px[cell(w, x, y)], bg, t2) && (x != sx || y != sy)
            ==> nbrs_visited(w, h, visited, x, y))
    }
}

proof fn lemma_supported_mono(
    px: Seq<Rgba>, w: int, h: int, bg: Rgba, t2: int, done: Seq<bool>, done2: Seq<bool>, x: int, y: int,
)
    requires
        done.len() == w * h,
        done2.len() == w * h,
        forall|i: int| 0 <= i < w * h && done[i] ==> done2[i],
        supported(px, w, h, bg, t2, done, x, y),
    ensures
        supported(px, w, h, bg, t2, done2, x, y),
{
    reveal(supported);
    if good(px, w, h, bg, t2, done, x - 1, y) {
        lemma_cell_in_grid(w, h, x - 1, y);
    }
    if good(px, w, h, bg, t2, done, x + 1, y) {
        lemma_cell_in_grid(w, h, x + 1, y);
    }
    if good(px, w, h, bg, t2, done, x, y - 1) {
        lemma_cell_in_grid(w, h, x, y - 1);
    }
    if good(px, w, h, bg, t2, done, x, y + 1) {
        lemma_cell_in_grid(w, h, x, y + 1);
    }
}

proof fn lemma_step_cleared(px: Seq<Rgba>, w: int, h: int, bg: Rgba, t2: int, done: Seq<bool>, x: int, y: int)
    requires
        in_grid(w, h, x, y),
        near_bg(at(px, w, x, y), bg, t2),
        supported(px, w, h, bg, t2, done, x, y),
    ensures
        cleared(px, w, h, bg, t2, x, y),
{
    reveal(supported);
    if on_edge(w, h, x, y) {
        assert(reached(px, w, h, bg, t2, 0, x, y));
    } else if good(px, w, h, bg, t2, done, x - 1, y) {
        let n = choose|n: nat| #[trigger] reached(px, w, h, bg, t2, n, x - 1, y);
        assert(reached(px, w, h, bg, t2, n + 1, x, y));
    } else if good(px, w, h, bg, t2, done, x + 1, y) {
        let n = choose|n: nat| #[trigger] reached(px, w, h, bg, t2, n, x + 1, y);
        assert(reached(px, w, h, bg, t2, n + 1, x, y));
    } else if good(px, w, h, bg, t2, done, x, y - 1) {
        let n = choose|n: nat| #[trigger] reached(px, w, h, bg, t2, n, x, y - 1);
        assert(reached(px, w, h, bg, t2, n + 1, x, y));
    } else {
        let n = choose|n: nat| #[trigger] reached(px, w, h, bg, t2, n, x, y + 1);
        assert(reached(px, w, h, bg, t2, n + 1, x, y));
    }
}

/// Each entry of the neighbour list is one of the four neighbours, inside
/// the image.
proof fn lemma_neighbor_cases(x: u32, y: u32, w: u32, h: u32, k: int)
    requires
        0 <= k < spec_neighbors(x, y, w, h).len(),
    ensures
        ({
            let (a, b) = spec_neighbors(x, y, w, h)[k];
            ||| (a == x - 1 && b == y && x > 0)
            ||| (a == x + 1 && b == y && x + 1 < w)
            ||| (a == x && b == y - 1 && y > 0)
            ||| (a == x && b == y + 1 && y + 1 < h)
        }),
{
    let s0: Seq<(u32, u32)> = if x > 0 { seq![((x - 1) as u32, y)] } else { Seq::empty() };
    let s1: Seq<(u32, u32)> = if x + 1 < w { seq![((x + 1) as u32, y)] } else { Seq::empty() };
    let s2: Seq<(u32, u32)> = if y > 0 { seq![(x, (y - 1) as u32)] } else { Seq::empty() };
    let s3: Seq<(u32, u32)> = if y + 1 < h { seq![(x, (y + 1) as u32)] } else { Seq::empty() };
    let s = spec_neighbors(x, y, w, h);
    assert(s == s0 + s1 + s2 + s3);
    let k1 = k - s0.len();
    let k2 = k1 - s1.len();
    let k3 = k2 - s2.len();
    if k < s0.len() {
        assert(s[k] == s0[k]);
    } else if k1 < s1.len() {
        assert(s[k] == s1[k1]);
    } else if k2 < s2.len() {
        assert(s[k] == s2[k2]);
    } else {
        assert(s[k] == s3[k3]);
    }
}

proof fn lemma_supported_by_neighbour(
    px: Seq<Rgba>, w: u32, h: u32, bg: Rgba, t2: int, done: Seq<bool>, x: u32, y: u32, k: int,
)
    requires
        good(px, w as int, h as int, bg, t2, done, x as int, y as int),
        0 <= k < spec_neighbors(x, y, w, h).len(),
    ensures
        supported(px, w as int, h as int, bg, t2, done,
            spec_neighbors(x, y, w, h)[k].0 as int, spec_neighbors(x, y, w, h)[k].1 as int),
{
    reveal(supported);
    lemma_neighbor_cases(x, y, w, h, k);
}

proof fn lemma_nbrs_visited_mono(w: int, h: int, visited: Seq<bool>, visited2: Seq<bool>, x: int, y: int)
    requires
        visited.len() == w * h,
        visited2.len() == w * h,
        in_grid(w, h, x, y),
        forall|i: int| 0 <= i < w * h && visited[i] ==> visited2[i],
        nbrs_visited(w, h, visited, x, y),
    ensures
        nbrs_visited(w, h, visited2, x, y),
{
    reveal(nbrs_visited);
    if x > 0 {
        lemma_cell_in_grid(w, h, x - 1, y);
    }
    if x + 1 < w {
        lemma_cell_in_grid(w, h, x + 1, y);
    }
    if y > 0 {
        lemma_cell_in_grid(w, h, x, y - 1);
    }
    if y + 1 < h {
        lemma_cell_in_grid(w, h, x, y + 1);
    }
}

proof fn lemma_nbrs_visited_from_list(w: int, h: int, visited: Seq<bool>, x: int, y: int, nb: Seq<(u32, u32)>)
    requires
        in_grid(w, h, x, y),
        w <= u32::MAX,
        h <= u32::MAX,
        nb == spec_neighbors(x as u32, y as u32, w as u32, h as u32),
        forall|j: int| 0 <= j < nb.len() ==> visited[cell(w, nb[j].0 as int, nb[j].1 as int)],
    ensures
        nbrs_visited(w, h, visited, x, y),
{
    reveal(nbrs_visited);
    let l = if x > 0 { 1int } else { 0int };
    let r = if x + 1 < w { 1int } else { 0int };
    let u = if y > 0 { 1int } else { 0int };
    if x > 0 {
        assert(nb[0] == ((x - 1) as u32, y as u32));
    }
    if x + 1 < w {
        assert(nb[l] == ((x + 1) as u32, y as u32));
    }
    if y > 0 {
        assert(nb[l + r] == (x as u32, (y - 1) as u32));
    }
    if y + 1 < h {
        assert(nb[l + r + u] == (x as u32, (y + 1) as u32));
    }
}

/// Once the queue is empty, every pixel reached from the edge was processed.
proof fn lemma_fill_complete(
    px: Seq<Rgba>, w: int, h: int, bg: Rgba, t2: int, visited: Seq<bool>, done: Seq<bool>, n: nat, x: int, y: int,
)
    requires
        visited.len() == w * h,
        done.len() == w * h,
        px.len() == w * h,
        forall|a: int, b: int| #![trigger cell(w, a, b)] in_grid(w, h, a, b) ==> {
            &&& (visited[cell(w, a, b)] ==> done[cell(w, a, b)])
            &&& (on_edge(w, h, a, b) ==> visited[cell(w, a, b)])
            &&& (done[cell(w, a, b)] && near_bg(px[cell(w, a, b)], bg, t2) ==> nbrs_visited(w, h, visited, a, b))
        },
        reached(px, w, h, bg, t2, n, x, y),
    ensures
        done[cell(w, x, y)],
    decreases n,
{
    reveal(nbrs_visited);
    if !on_edge(w, h, x, y) {
        let m = (n - 1) as nat;
        if reached(px, w, h, bg, t2, m, x - 1, y) {
            lemma_fill_complete(px, w, h, bg, t2, visited, done, m, x - 1, y);
            assert(nbrs_visited(w, h, visited, x - 1, y));
        } else if reached(px, w, h, bg, t2, m, x + 1, y) {
            lemma_fill_complete(px, w, h, bg, t2, visited, done, m, x + 1, y);
            assert(nbrs_visited(w, h, visited, x + 1, y));
        } else if reached(px, w, h, bg, t2, m, x, y - 1) {
            lemma_fill_complete(px, w, h, bg, t2, visited, done, m, x, y - 1);
            assert(nbrs_visited(w, h, visited, x, y - 1));
        } else {
            assert(reached(px, w, h, bg, t2, m, x, y + 1));
            lemma_fill_complete(px, w, h, bg, t2, visited, done, m, x, y + 1);
            assert(nbrs_visited(w, h, visited, x, y + 1));
        }
    }
}

/// Taking (x, y) off the front of the queue: it is marked done and, near
/// the background colour, made transparent.
proof fn lemma_fill_pop(
    px: Seq<Rgba>, w: int, h: int, bg: Rgba, t2: int,
    visited: Seq<bool>, done: Seq<bool>, cur: Seq<Rgba>, q: Seq<(u32, u32)>, near: bool,
)
    requires
        fill_inv(px, w, h, bg, t2, visited, done, cur, q, -1, -1),
        q.len() > 0,
        near == near_bg(px[cell(w, q[0].0 as int, q[0].1 as int)], bg, t2),
    ensures
        ({
            let x = q[0].0 as int;
            let y = q[0].1 as int;
            let c = cell(w, x, y);
            let done2 = done.update(c, true);
            &&& fill_inv(px, w, h, bg, t2, visited, done2,
                if near { cur.update(c, transparent()) } else { cur }, q.subrange(1, q.len() as int), x, y)
            &&& (near ==> good(px, w, h, bg, t2, done2, x, y))
            &&& 0 <= c < w * h
        }),
{
    let x = q[0].0 as int;
    let y = q[0].1 as int;
    let c = cell(w, x, y);
    let done2 = done.update(c, true);
    let cur2 = if near { cur.update(c, transparent()) } else { cur };
    let q2 = q.subrange(1, q.len() as int);
    lemma_cell_in_grid(w, h, x, y);
    assert(visited[c] && !done[c]);
    assert(cur[c] == px[c]);
    assert forall|i: int| 0 <= i < w * h && done[i] implies done2[i] by {}
    assert forall|k: int| #![trigger q2[k]] 0 <= k < q2.len() implies {
        &&& in_grid(w, h, q2[k].0 as int, q2[k].1 as int)
        &&& visited[cell(w, q2[k].0 as int, q2[k].1 as int)]
        &&& !done2[cell(w, q2[k].0 as int, q2[k].1 as int)]
    } by {
        assert(q2[k] == q[k + 1]);
        assert(q[0] != q[k + 1]);
        let a = q[k + 1].0 as int;
        let b = q[k + 1].1 as int;
        assert(in_grid(w, h, a, b));
        lemma_cell_in_grid(w, h, a, b);
        if cell(w, a, b) == c {
            lemma_cell_injective(w, a, b, x, y);
            assert(q[k + 1] == q[0]);
        }
        assert(done2[cell(w, a, b)] == done[cell(w, a, b)]);
    }
    assert forall|k1: int, k2: int| 0 <= k1 < k2 < q2.len() implies q2[k1] != q2[k2] by {
        assert(q2[k1] == q[k1 + 1] && q2[k2] == q[k2 + 1]);
    }
    assert forall|a: int, b: int| #![trigger cell(w, a, b)] in_grid(w, h, a, b) implies {
        &&& (done2[cell(w, a, b)] ==> visited[cell(w, a, b)])
        &&& (visited[cell(w, a, b)] && !done2[cell(w, a, b)] ==> in_queue(q2, a, b))
        &&& cur2[cell(w, a, b)] == if done2[cell(w, a, b)] && near_bg(px[cell(w, a, b)], bg, t2) {
            transparent()
        } else {
            px[cell(w, a, b)]
        }
        &&& (on_edge(w, h, a, b) ==> visited[cell(w, a, b)])
        &&& (visited[cell(w, a, b)] ==> supported(px, w, h, bg, t2, done2, a, b))
        &&& (done2[cell(w, a, b)] && near_bg(px[cell(w, a, b)], bg, t2) ==> cleared(px, w, h, bg, t2, a, b))
        &&& (done2[cell(w, a, b)] && near_bg(px[cell(w, a, b)], bg, t2) && (a != x || b != y)
            ==> nbrs_visited(w, h, visited, a, b))
    } by {
        lemma_cell_in_grid(w, h, a, b);
        if visited[cell(w, a, b)] {
            lemma_supported_mono(px, w, h, bg, t2, done, done2, a, b);
        }
        if a == x && b == y {
            if near {
                lemma_step_cleared(px, w, h, bg, t2, done, x, y);
            }
        } else {
            if cell(w, a, b) == c {
                lemma_cell_injective(w, a, b, x, y);
            }
            if visited[cell(w, a, b)] && !done2[cell(w, a, b)] {
                assert(in_queue(q, a, b));
                let k = choose|k: int| 0 <= k < q.len() && #[trigger] q[k].0 == a && q[k].1 == b;
                assert(k != 0);
                assert(q2[k - 1] == q[k]);
            }
        }
    }
    if near {
        lemma_step_cleared(px, w, h, bg, t2, done, x, y);
    }
}

/// Marking and queueing a neighbour (listed at `k`) of the good pixel (x, y).
proof fn lemma_fill_enqueue(
    px: Seq<Rgba>, w: u32, h: u32, bg: Rgba, t2: int,
    visited: Seq<bool>, done: Seq<bool>, cur: Seq<Rgba>, q: Seq<(u32, u32)>, x: u32, y: u32, k: int,
)
    requires
        fill_inv(px, w as int, h as int, bg, t2, visited, done, cur, q, x as int, y as int),
        good(px, w as int, h as int, bg, t2, done, x as int, y as int),
        0 <= k < spec_neighbors(x, y, w, h).len(),
    ensures
        ({
            let (nx, ny) = spec_neighbors(x, y, w, h)[k];
            let i = cell(w as int, nx as int, ny as int);
            &&& in_grid(w as int, h as int, nx as int, ny as int)
            &&& 0 <= i < w * h
            &&& fill_inv(px, w as int, h as int, bg, t2, visited.update(i, true), done, cur,
                if visited[i] { q } else { q.push((nx, ny)) }, x as int, y as int)
            &&& (!visited[i] ==> unvisited(visited.update(i, true)) + 1 == unvisited(visited))
            &&& (visited[i] ==> visited.update(i, true) == visited)
        }),
{
    let wi = w as int;
    let hi = h as int;
    let (nx, ny) = spec_neighbors(x, y, w, h)[k];
    lemma_neighbor_cases(x, y, w, h, k);
    let a0 = nx as int;
    let b0 = ny as int;
    let i = cell(wi, a0, b0);
    lemma_cell_in_grid(wi, hi, a0, b0);
    let v2 = visited.update(i, true);
    let q2 = if visited[i] { q } else { q.push((nx, ny)) };
    if visited[i] {
        assert(v2 =~= visited);
    } else {
        lemma_unvisited_update(visited, i);
        lemma_supported_by_neighbour(px, w, h, bg, t2, done, x, y, k);
        assert forall|kk: int| #![trigger q2[kk]] 0 <= kk < q2.len() implies {
            &&& in_grid(wi, hi, q2[kk].0 as int, q2[kk].1 as int)
            &&& v2[cell(wi, q2[kk].0 as int, q2[kk].1 as int)]
            &&& !done[cell(wi, q2[kk].0 as int, q2[kk].1 as int)]
        } by {
            if kk < q.len() {
                assert(q2[kk] == q[kk]);
                lemma_cell_in_grid(wi, hi, q[kk].0 as int, q[kk].1 as int);
            }
        }
        assert forall|k1: int, k2: int| 0 <= k1 < k2 < q2.len() implies q2[k1] != q2[k2] by {
            if k2 == q.len() {
                assert(q2[k1] == q[k1]);
                assert(visited[cell(wi, q[k1].0 as int, q[k1].1 as int)]);
            }
        }
        assert forall|a: int, b: int| #![trigger cell(wi, a, b)] in_grid(wi, hi, a, b) implies {
            &&& (done[cell(wi, a, b)] ==> v2[cell(wi, a, b)])
            &&& (v2[cell(wi, a, b)] && !done[cell(wi, a, b)] ==> in_queue(q2, a, b))
            &&& cur[cell(wi, a, b)] == if done[cell(wi, a, b)] && near_bg(px[cell(wi, a, b)], bg, t2) {
                transparent()
            } else {
                px[cell(wi, a, b)]
            }
            &&& (on_edge(wi, hi, a, b) ==> v2[cell(wi, a, b)])
            &&& (v2[cell(wi, a, b)] ==> supported(px, wi, hi, bg, t2, done, a, b))
            &&& (done[cell(wi, a, b)] && near_bg(px[cell(wi, a, b)], bg, t2) ==> cleared(px, wi, hi, bg, t2, a, b))
            &&& (done[cell(wi, a, b)] && near_bg(px[cell(wi, a, b)], bg, t2) && (a != x || b != y)
                ==> nbrs_visited(wi, hi, v2, a, b))
        } by {
            lemma_cell_in_grid(wi, hi, a, b);
            if a == a0 && b == b0 {
                assert(q2[q.len() as int] == (nx, ny));
            } else {
                if cell(wi, a, b) == i {
                    lemma_cell_injective(wi, a, b, a0, b0);
                }
                if v2[cell(wi, a, b)] && !done[cell(wi, a, b)] {
                    assert(in_queue(q, a, b));
                    let kq = choose|kq: int| 0 <= kq < q.len() && #[trigger] q[kq].0 == a && q[kq].1 == b;
                    assert(q2[kq] == q[kq]);
                }
            }
            if done[cell(wi, a, b)] && near_bg(px[cell(wi, a, b)], bg, t2) && (a != x || b != y) {
                assert forall|j: int| 0 <= j < wi * hi && visited[j] implies v2[j] by {}
                lemma_nbrs_visited_mono(wi, hi, visited, v2, a, b);
            }
        }
    }
}

/// Once the neighbours of (sx, sy) are marked, it needs no exemption.
proof fn lemma_fill_unskip(
    px: Seq<Rgba>, w: int, h: int, bg: Rgba, t2: int,
    visited: Seq<bool>, done: Seq<bool>, cur: Seq<Rgba>, q: Seq<(u32, u32)>, sx: int, sy: int,
)
    requires
        fill_inv(px, w, h, bg, t2, visited, done, cur, q, sx, sy),
        in_grid(w, h, sx, sy),
        done[cell(w, sx, sy)] && near_bg(px[cell(w, sx, sy)], bg, t2) ==> nbrs_visited(w, h, visited, sx, sy),
    ensures
        fill_inv(px, w, h, bg, t2, visited, done, cur, q, -1, -1),
{
    assert forall|a: int, b: int| #![trigger cell(w, a, b)] in_grid(w, h, a, b)
        && done[cell(w, a, b)] && near_bg(px[cell(w, a, b)], bg, t2)
        implies nbrs_visited(w, h, visited, a, b) by {
        if a == sx && b == sy {
        } else {
            assert(cell(w, a, b) == cell(w, a, b));
        }
    }
}

/// The state of the seeding phase: queued pixels are marked edge pixels,
/// each once, and every marked pixel is queued.
pub open spec fn seed_inv(w: int, h: int, visited: Seq<bool>, q: Seq<(u32, u32)>) -> bool {
    &&& visited.len() == w * h
    &&& forall|k: int| #![trigger q[k]] 0 <= k < q.len() ==> {
        &&& in_grid(w, h, q[k].0 as int, q[k].1 as int)
        &&& on_edge(w, h, q[k].0 as int, q[k].1 as int)
        &&& visited[cell(w, q[k].0 as int, q[k].1 as int)]
    }
    &&& forall|k1: int, k2: int| 0 <= k1 < k2 < q.len() ==> q[k1] != q[k2]
    &&& forall|x: int, y: int| #![trigger cell(w, x, y)] in_grid(w, h, x, y) && visited[cell(w, x, y)]
        ==> on_edge(w, h, x, y) && in_queue(q, x, y)
}

proof fn lemma_seed_step(w: int, h: int, visited: Seq<bool>, q: Seq<(u32, u32)>, x: u32, y: u32)
    requires
        seed_inv(w, h, visited, q),
        in_grid(w, h, x as int, y as int),
        on_edge(w, h, x as int, y as int),
    ensures
        0 <= cell(w, x as int, y as int) < w * h,
        seed_inv(w, h, visited.update(cell(w, x as int, y as int), true),
            if visited[cell(w, x as int, y as int)] { q } else { q.push((x, y)) }),
{
    let i = cell(w, x as int, y as int);
    lemma_cell_in_grid(w, h, x as int, y as int);
    let v2 = visited.update(i, true);
    let q2 = if visited[i] { q } else { q.push((x, y)) };
    if visited[i] {
        assert(v2 =~= visited);
    } else {
        assert forall|k: int| #![trigger q2[k]] 0 <= k < q2.len() implies {
            &&& in_grid(w, h, q2[k].0 as int, q2[k].1 as int)
            &&& on_edge(w, h, q2[k].0 as int, q2[k].1 as int)
            &&& v2[cell(w, q2[k].0 as int, q2[k].1 as int)]
        } by {
            if k < q.len() {
                assert(q2[k] == q[k]);
                lemma_cell_in_grid(w, h, q[k].0 as int, q[k].1 as int);
            }
        }
        assert forall|k1: int, k2: int| 0 <= k1 < k2 < q2.len() implies q2[k1] != q2[k2] by {
            if k2 == q.len() {
                assert(q2[k1] == q[k1]);
                assert(visited[cell(w, q[k1].0 as int, q[k1].1 as int)]);
            }
        }
        assert forall|a: int, b: int| #![trigger cell(w, a, b)] in_grid(w, h, a, b) && v2[cell(w, a, b)]
            implies on_edge(w, h, a, b) && in_queue(q2, a, b) by {
            lemma_cell_in_grid(w, h, a, b);
            if a == x && b == y {
                assert(q2[q.len() as int] == (x, y));
            } else {
                if cell(w, a, b) == i {
                    lemma_cell_injective(w, a, b, x as int, y as int);
                }
                let kq = choose|kq: int| 0 <= kq < q.len() && #[trigger] q[kq].0 == a && q[kq].1 == b;
                assert(q2[kq] == q[kq]);
            }
        }
    }
}

/// The fill starts from the seeded queue: nothing done, pixels unchanged.
proof fn lemma_fill_start(px: Seq<Rgba>, w: int, h: int, bg: Rgba, t2: int, visited: Seq<bool>, q: Seq<(u32, u32)>)
    requires
        seed_inv(w, h, visited, q),
        px.len() == w * h,
        forall|x: int, y: int| #![trigger cell(w, x, y)] in_grid(w, h, x, y) && on_edge(w, h, x, y)
            ==> visited[cell(w, x, y)],
    ensures
        fill_inv(px, w, h, bg, t2, visited, Seq::new((w * h) as nat, |i: int| false), px, q, -1, -1),
{
    reveal(supported);
    let done = Seq::new((w * h) as nat, |i: int| false);
    assert(w * h >= 0) by {
        if visited.len() > 0 {
        }
    }
    assert forall|k: int| #![trigger q[k]] 0 <= k < q.len() implies !done[cell(w, q[k].0 as int, q[k].1 as int)] by {
        lemma_cell_in_grid(w, h, q[k].0 as int, q[k].1 as int);
    }
    assert forall|x: int, y: int| #![trigger cell(w, x, y)] in_grid(w, h, x, y) implies !done[cell(w, x, y)] by {
        lemma_cell_in_grid(w, h, x, y);
    }
}

/// With the queue empty, a pixel ends transparent exactly when it belongs
/// to the background region.
proof fn lemma_fill_result(
    px: Seq<Rgba>, w: int, h: int, bg: Rgba, t2: int, visited: Seq<bool>, done: Seq<bool>, cur: Seq<Rgba>,
)
    requires
        fill_inv(px, w, h, bg, t2, visited, done, cur, Seq::empty(), -1, -1),
    ensures
        forall|x: int, y: int| #![trigger cell(w, x, y)] in_grid(w, h, x, y) ==>
            cur[cell(w, x, y)] == if cleared(px, w, h, bg, t2, x, y) { transparent() } else { px[cell(w, x, y)] },
{
    let q: Seq<(u32, u32)> = Seq::empty();
    assert forall|x: int, y: int| #![trigger cell(w, x, y)] in_grid(w, h, x, y) implies
        cur[cell(w, x, y)] == if cleared(px, w, h, bg, t2, x, y) { transparent() } else { px[cell(w, x, y)] } by {
        if cleared(px, w, h, bg, t2, x, y) {
            let n = choose|n: nat| #[trigger] reached(px, w, h, bg, t2, n, x, y);
            assert forall|a: int, b: int| #![trigger cell(w, a, b)] in_grid(w, h, a, b) implies {
                &&& (visited[cell(w, a, b)] ==> done[cell(w, a, b)])
                &&& (on_edge(w, h, a, b) ==> visited[cell(w, a, b)])
                &&& (done[cell(w, a, b)] && near_bg(px[cell(w, a, b)], bg, t2) ==> nbrs_visited(w, h, visited, a, b))
            } by {
                if visited[cell(w, a, b)] && !done[cell(w, a, b)] {
                    assert(in_queue(q, a, b));
                }
            }
            lemma_fill_complete(px, w, h, bg, t2, visited, done, n, x, y);
        }
    }
}

/// Setting a flag keeps every flag that was set.
proof fn lemma_marks_kept(w: int, h: int, v: Seq<bool>, i: int)
    requires
        v.len() == w * h,
        0 <= i < w * h,
    ensures
        forall|a: int, b: int| #![trigger cell(w, a, b)] in_grid(w, h, a, b) && v[cell(w, a, b)]
            ==> v.update(i, true)[cell(w, a, b)],
{
    assert forall|a: int, b: int| #![trigger cell(w, a, b)] in_grid(w, h, a, b) && v[cell(w, a, b)]
        implies v.update(i, true)[cell(w, a, b)] by {
        lemma_cell_in_grid(w, h, a, b);
    }
}

/// Marks (x, y) and queues it, unless it is marked already.
fn enqueue_seed(x: u32, y: u32, w: u32, visited: &mut Vec<bool>, queue: &mut VecDeque<(u32, u32)>)
    requires
        x < w,
        cell(w as int, x as int, y as int) < old(visited)@.len(),
        old(visited)@.len() <= u32::MAX,
    ensures
        final(visited)@ == old(visited)@.update(cell(w as int, x as int, y as int), true),
        final(queue)@ == if old(visited)@[cell(w as int, x as int, y as int)] {
            old(queue)@
        } else {
            old(queue)@.push((x, y))
        },
{
    assert(0 <= y * w) by (nonlinear_arith)
        requires
            0 <= y,
            0 <= w,
    ;
    let idx = (y * w + x) as usize;
    if !visited[idx] {
        visited[idx] = true;
        queue.push_back((x, y));
    } else {
        assert(visited@.update(idx as int, true) =~= visited@);
    }
}

/// Makes transparent the region of pixels near the background colour
/// (squared distance below `threshold_sq`) that is connected to the edge
/// through 4-neighbours, by a breadth-first search seeded with the edge.
pub fn flood_fill_transparency(img: SpriteImage, threshold_sq: u32) -> (r: SpriteImage)
    requires
        img.wf(),
    ensures
        r.wf(),
        flood_filled(img, threshold_sq as int, r),
{
    let w = img.width;
    let h = img.height;
    if w == 0 || h == 0 {
        return img;
    }
    let ghost img0 = img;
    let ghost px = img.pixels@;
    let ghost wi = w as int;
    let ghost hi = h as int;
    let ghost t2 = threshold_sq as int;
    let n = (w * h) as usize;
    let mut visited: Vec<bool> = vec![false; n];
    let mut queue: VecDeque<(u32, u32)> = VecDeque::new();
    proof {
        assert(visited@ =~= Seq::new(n as nat, |i: int| false));
        assert forall|x: int, y: int| #![trigger cell(wi, x, y)] in_grid(wi, hi, x, y)
            implies !visited@[cell(wi, x, y)] by {
            lemma_cell_in_grid(wi, hi, x, y);
        }
    }
    let mut x: u32 = 0;
    while x < w
        invariant
            0 < w,
            0 < h,
            wi == w,
            hi == h,
            n == w * h,
            n <= u32::MAX,
            x <= w,
            seed_inv(wi, hi, visited@, queue@),
            forall|a: int, b: int| #![trigger cell(wi, a, b)] in_grid(wi, hi, a, b) && (b == 0 || b == hi - 1)
                && a < x ==> visited@[cell(wi, a, b)],
        decreases w - x,
    {
        let ghost v0 = visited@;
        proof {
            lemma_seed_step(wi, hi, visited@, queue@, x, 0);
            lemma_cell_in_grid(wi, hi, x as int, 0);
            lemma_marks_kept(wi, hi, v0, cell(wi, x as int, 0));
        }
        enqueue_seed(x, 0, w, &mut visited, &mut queue);
        let ghost v1 = visited@;
        proof {
            lemma_seed_step(wi, hi, visited@, queue@, x, (h - 1) as u32);
            lemma_cell_in_grid(wi, hi, x as int, hi - 1);
            lemma_marks_kept(wi, hi, v1, cell(wi, x as int, hi - 1));
        }
        enqueue_seed(x, h - 1, w, &mut visited, &mut queue);
        x = x + 1;
    }
    let mut y: u32 = 1;
    while y + 1 < h
        invariant
            0 < w,
            0 < h,
            wi == w,
            hi == h,
            n == w * h,
            n <= u32::MAX,
            1 <= y,
            y + 1 <= h || y == 1,
            seed_inv(wi, hi, visited@, queue@),
            forall|a: int, b: int| #![trigger cell(wi, a, b)] in_grid(wi, hi, a, b)
                && (b == 0 || b == hi - 1 || ((a == 0 || a == wi - 1) && b < y)) ==> visited@[cell(wi, a, b)],
        decreases h - y,
    {
        let ghost v0 = visited@;
        proof {
            lemma_seed_step(wi, hi, visited@, queue@, 0, y);
            lemma_cell_in_grid(wi, hi, 0, y as int);
            lemma_marks_kept(wi, hi, v0, cell(wi, 0, y as int));
        }
        enqueue_seed(0, y, w, &mut visited, &mut queue);
        let ghost v1 = visited@;
        proof {
            lemma_seed_step(wi, hi, visited@, queue@, (w - 1) as u32, y);
            lemma_cell_in_grid(wi, hi, wi - 1, y as int);
            lemma_marks_kept(wi, hi, v1, cell(wi, wi - 1, y as int));
        }
        enqueue_seed(w - 1, y, w, &mut visited, &mut queue);
        y = y + 1;
    }
    proof {
        assert forall|a: int, b: int| #![trigger cell(wi, a, b)] in_grid(wi, hi, a, b) && on_edge(wi, hi, a, b)
            implies visited@[cell(wi, a, b)] by {
        }
        lemma_fill_start(px, wi, hi, spec_background(img0), t2, visited@, queue@);
    }
    let bg = estimate_background_color(&img);
    let mut img = img;
    let ghost mut done: Seq<bool> = Seq::new((wi * hi) as nat, |i: int| false);
    while queue.len() > 0
        invariant
            0 < w,
            0 < h,
            wi == w,
            hi == h,
            n == w * h,
            n <= u32::MAX,
            img.width == w,
            img.height == h,
            px == img0.pixels@,
            bg == spec_background(img0),
            t2 == threshold_sq,
            fill_inv(px, wi, hi, bg, t2, visited@, done, img.pixels@, queue@, -1, -1),
        decreases 2 * unvisited(visited@) + queue@.len(),
    {
        let ghost measure = 2 * unvisited(visited@) + queue@.len();
        let ghost q0 = queue@;
        let ghost v0 = visited@;
        let (x, y) = queue.pop_front().unwrap();
        proof {
            lemma_cell_in_grid(wi, hi, x as int, y as int);
        }
        let i = (y * w + x) as usize;
        let pixel = img.pixels[i];
        let near = color_distance_sq(&pixel, &bg) < threshold_sq;
        proof {
            lemma_fill_pop(px, wi, hi, bg, t2, visited@, done, img.pixels@, q0, near);
            done = done.update(i as int, true);
        }
        if near {
            img.pixels[i] = Rgba { r: 0, g: 0, b: 0, a: 0 };
            let nb = neighbors(x, y, w, h);
            let mut k: usize = 0;
            while k < nb.len()
                invariant
                    0 < w,
                    0 < h,
                    wi == w,
                    hi == h,
                    n == w * h,
                    n <= u32::MAX,
                    x < w,
                    y < h,
                    i == cell(wi, x as int, y as int),
                    img.width == w,
                    img.height == h,
                    nb@ == spec_neighbors(x, y, w, h),
                    k <= nb@.len(),
                    fill_inv(px, wi, hi, bg, t2, visited@, done, img.pixels@, queue@, x as int, y as int),
                    good(px, wi, hi, bg, t2, done, x as int, y as int),
                    forall|j: int| 0 <= j < k ==> in_grid(wi, hi, nb@[j].0 as int, nb@[j].1 as int)
                        && #[trigger] visited@[cell(wi, nb@[j].0 as int, nb@[j].1 as int)],
                    2 * unvisited(visited@) + queue@.len() < measure,
                decreases nb.len() - k,
            {
                let (nx, ny) = nb[k];
                proof {
                    lemma_fill_enqueue(px, w, h, bg, t2, visited@, done, img.pixels@, queue@, x, y, k as int);
                    lemma_marks_kept(wi, hi, visited@, cell(wi, nx as int, ny as int));
                }
                enqueue_seed(nx, ny, w, &mut visited, &mut queue);
                k = k + 1;
            }
            proof {
                lemma_nbrs_visited_from_list(wi, hi, visited@, x as int, y as int, nb@);
                lemma_fill_unskip(px, wi, hi, bg, t2, visited@, done, img.pixels@, queue@, x as int, y as int);
            }
        } else {
            proof {
                lemma_fill_unskip(px, wi, hi, bg, t2, visited@, done, img.pixels@, queue@, x as int, y as int);
            }
        }
    }
    proof {
        assert(queue@ =~= Seq::<(u32, u32)>::empty());
        lemma_fill_result(px, wi, hi, bg, t2, visited@, done, img.pixels@);
        assert forall|a: int, b: int| #![trigger img.pixel(a, b)] in_grid(wi, hi, a, b) implies img.pixel(a, b) == if cleared(
            px, wi, hi, spec_background(img0), t2, a, b) {
            transparent()
        } else {
            img0.pixel(a, b)
        } by {
            assert(cell(wi, a, b) == cell(wi, a, b));
        }
    }
    img
}

/// Why encoded image bytes could not be read, with the image crate's
/// description of the failure.
#[derive(Debug)]
pub enum ImageReadFailure {
    /// Detecting the format failed.
    Format(String),
    /// Decoding in the detected format failed.
    Decode(String),
}

/// What image's `imageops::resize` with `FilterType::Nearest` makes of a
/// `w` by `h` RGBA8 picture, scaled to `size` by `size`, as RGBA8 bytes.
pub uninterp spec fn nearest_resize(w: u32, h: u32, px: Seq<u8>, size: u32) -> Seq<u8>;

/// Reads encoded image bytes with image's `ImageReader` (`with_guessed_format`
/// on an in-memory reader, then `decode`) and takes the picture as RGBA8
/// (`to_rgba8`, `into_raw`): its width, height and pixel bytes. An image
/// buffer always holds at least four bytes per pixel. Which bytes decode,
/// and to what, is not stated: image consults format-detection and decoding
/// hooks that any code in the process may register at run time.
#[verifier::external_body]
fn decode_rgba8(raw: &[u8]) -> (r: Result<(u32, u32, Vec<u8>), ImageReadFailure>)
    ensures
        r matches Ok((w, h, px)) ==> px@.len() >= 4 * (w * h),
{
    let reader = match ImageReader::new(Cursor::new(raw)).with_guessed_format() {
        Ok(reader) => reader,
        Err(e) => return Err(ImageReadFailure::Format(e.to_string())),
    };
    match reader.decode() {
        Ok(img) => {
            let rgba = img.to_rgba8();
            Ok((rgba.width(), rgba.height(), rgba.into_raw()))
        },
        Err(e) => Err(ImageReadFailure::Decode(e.to_string())),
    }
}

/// `imageops::resize` of the `w` by `h` RGBA8 picture `px` (an `RgbaImage`
/// built by `from_raw`, which accepts a buffer of exactly four bytes per
/// pixel) to `size` by `size` with `FilterType::Nearest`, as RGBA8 bytes.
/// The result is `nearest_resize` of the arguments; image allocates it as
/// `size * size` pixels in every branch of `resize`.
#[verifier::external_body]
fn resize_nearest(w: u32, h: u32, px: &[u8], size: u32) -> (r: Vec<u8>)
    requires
        px@.len() == 4 * (w * h),
        0 < size <= 4096,
    ensures
        r@ == nearest_resize(w, h, px@, size),
        r@.len() == 4 * (size * size),
{
    let img = RgbaImage::from_raw(w, h, px.to_vec()).unwrap();
    image::imageops::resize(&img, size, size, FilterType::Nearest).into_raw()
}

/// The `side` by `side` square of RGBA8 bytes `px` of a picture `w` pixels
/// wide whose top-left corner is at (x0, y0), row by row.
pub open spec fn cropped_rgba8(w: int, px: Seq<u8>, x0: int, y0: int, side: int) -> Seq<u8> {
    Seq::new((4 * (side * side)) as nat, |i: int|
        px[4 * ((y0 + (i / 4) / side) * w + x0 + (i / 4) % side) + i % 4])
}

proof fn lemma_cropped_at(w: int, px: Seq<u8>, x0: int, y0: int, side: int, y: int, x: int, c: int)
    requires
        0 <= y < side,
        0 <= x < side,
        0 <= c < 4,
    ensures
        0 <= 4 * (y * side + x) + c < 4 * (side * side),
        cropped_rgba8(w, px, x0, y0, side)[4 * (y * side + x) + c] == px[4 * ((y0 + y) * w + x0 + x) + c],
{
    let k = y * side + x;
    let i = 4 * k + c;
    assert((y + 1) * side <= side * side) by (nonlinear_arith)
        requires y + 1 <= side, 0 <= side;
    assert((y + 1) * side == y * side + side) by (nonlinear_arith);
    assert(0 <= y * side) by (nonlinear_arith)
        requires 0 <= y, 0 <= side;
    vstd::arithmetic::div_mod::lemma_fundamental_div_mod_converse(i, 4, k, c);
    vstd::arithmetic::div_mod::lemma_fundamental_div_mod_converse(k, side, y, x);
}

/// Copies the `side` by `side` square at (x0, y0) out of a `w` by `h`
/// RGBA8 picture.
pub fn crop_rgba8(w: u32, h: u32, px: &[u8], x0: u32, y0: u32, side: u32) -> (r: Vec<u8>)
    requires
        x0 + side <= w,
        y0 + side <= h,
        px@.len() >= 4 * (w * h),
    ensures
        r@ == cropped_rgba8(w as int, px@, x0 as int, y0 as int, side as int),
{
    let ghost goal = cropped_rgba8(w as int, px@, x0 as int, y0 as int, side as int);
    let mut r: Vec<u8> = Vec::new();
    let mut y: u32 = 0;
    while y < side
        invariant
            x0 + side <= w,
            y0 + side <= h,
            px@.len() >= 4 * (w * h),
            goal == cropped_rgba8(w as int, px@, x0 as int, y0 as int, side as int),
            y <= side,
            r@.len() == 4 * (y * side),
            forall|j: int| 0 <= j < r@.len() ==> r@[j] == goal[j],
        decreases side - y,
    {
        let mut x: u32 = 0;
        while x < side
            invariant
                x0 + side <= w,
                y0 + side <= h,
                px@.len() >= 4 * (w * h),
                goal == cropped_rgba8(w as int, px@, x0 as int, y0 as int, side as int),
                y < side,
                x <= side,
                r@.len() == 4 * (y * side + x),
                forall|j: int| 0 <= j < r@.len() ==> r@[j] == goal[j],
            decreases side - x,
        {
            proof {
                crate::dungeon::lemma_index_in_grid(w as int, h as int, (x0 + x) as int, (y0 + y) as int);
                assert(px@.len() == px.len());
                assert(4 * ((y0 + y) * w + (x0 + x)) + 3 < px@.len());
            }
            let base: usize = 4 * ((y0 + y) as usize * (w as usize) + (x0 + x) as usize);
            let ghost before = r@;
            r.push(px[base]);
            r.push(px[base + 1]);
            r.push(px[base + 2]);
            r.push(px[base + 3]);
            proof {
                let k = y * side + x;
                lemma_cropped_at(w as int, px@, x0 as int, y0 as int, side as int, y as int, x as int, 0);
                lemma_cropped_at(w as int, px@, x0 as int, y0 as int, side as int, y as int, x as int, 1);
                lemma_cropped_at(w as int, px@, x0 as int, y0 as int, side as int, y as int, x as int, 2);
                lemma_cropped_at(w as int, px@, x0 as int, y0 as int, side as int, y as int, x as int, 3);
                assert forall|j: int| 0 <= j < r@.len() implies r@[j] == goal[j] by {
                    if j < before.len() {
                        assert(r@[j] == before[j]);
                    }
                }
            }
            x = x + 1;
        }
        proof {
            assert(y * side + side == (y + 1) * side) by (nonlinear_arith);
        }
        y = y + 1;
    }
    proof {
        assert(r@ =~= goal);
    }
    r
}

/// Side of a finished sprite, in pixels.
pub const TARGET_SIZE: u32 = 32;

/// Bound on the squared colour distance under which a pixel counts as
/// background: a distance below 30.
pub const FLOOD_FILL_THRESHOLD_SQ: u32 = 900;

/// The message a failed read is reported with: the step that failed, then
/// image's description of the failure.
pub open spec fn read_failure_message(f: ImageReadFailure) -> Seq<char> {
    match f {
        ImageReadFailure::Format(d) => "format detection failed: "@ + d@,
        ImageReadFailure::Decode(d) => "decode failed: "@ + d@,
    }
}

/// `e` reports the failed read `f`.
pub open spec fn reports_read_failure(f: ImageReadFailure, e: SpriteGenError) -> bool {
    e matches SpriteGenError::ImageProcessing(m) && m@ == read_failure_message(f)
}

/// The error a failed read is reported as.
pub fn read_failure_error(f: &ImageReadFailure) -> (r: SpriteGenError)
    ensures
        reports_read_failure(*f, r),
{
    match f {
        ImageReadFailure::Format(detail) => processing_error("format detection failed: ", detail.as_str()),
        ImageReadFailure::Decode(detail) => processing_error("decode failed: ", detail.as_str()),
    }
}

fn processing_error(prefix: &str, detail: &str) -> (r: SpriteGenError)
    ensures
        r matches SpriteGenError::ImageProcessing(m) && m@ == prefix@ + detail@,
{
    let mut m = String::from_str(prefix);
    m.append(detail);
    SpriteGenError::ImageProcessing(m)
}

/// The RGBA8 bytes of a `w` by `h` picture cut to its centred square and
/// scaled to 32x32 with nearest-neighbour sampling.
pub open spec fn resized_square(w: u32, h: u32, px: Seq<u8>) -> Seq<u8> {
    let side: u32 = if w <= h { w } else { h };
    nearest_resize(side, side, cropped_rgba8(w as int, px, ((w - side) / 2) as int, ((h - side) / 2) as int, side as int),
        TARGET_SIZE)
}

/// `img` is the sprite made from the `w` by `h` RGBA8 picture `px`: its
/// centred square scaled to 32x32, with the background connected to the edge
/// cleared.
pub open spec fn finished_sprite(w: u32, h: u32, px: Seq<u8>, img: SpriteImage) -> bool {
    &&& img.wf()
    &&& img.width == TARGET_SIZE
    &&& img.height == TARGET_SIZE
    &&& exists|src: SpriteImage| #![trigger flood_filled(src, FLOOD_FILL_THRESHOLD_SQ as int, img)]
        src.wf() && src.width == TARGET_SIZE && src.height == TARGET_SIZE
        && rgba_bytes(src.pixels@) == resized_square(w, h, px)
        && flood_filled(src, FLOOD_FILL_THRESHOLD_SQ as int, img)
}

/// Makes the sprite from a decoded `w` by `h` RGBA8 picture: crop to the
/// centred square, scale to 32x32 with nearest-neighbour sampling, and clear
/// the background region connected to the edge.
pub fn finish_sprite(w: u32, h: u32, px: &[u8]) -> (r: SpriteImage)
    requires
        px@.len() >= 4 * (w * h),
    ensures
        finished_sprite(w, h, px@, r),
{
    let (x_off, y_off, side) = center_square(w, h);
    let cropped = crop_rgba8(w, h, px, x_off, y_off, side);
    proof {
        assert(side * side <= w * h) by (nonlinear_arith)
            requires side <= w, side <= h, 0 <= side;
    }
    let raw = resize_nearest(side, side, cropped.as_slice(), TARGET_SIZE);
    let src = SpriteImage::from_rgba_bytes(TARGET_SIZE, TARGET_SIZE, raw.as_slice()).unwrap();
    let out = flood_fill_transparency(src, FLOOD_FILL_THRESHOLD_SQ);
    proof {
        assert(flood_filled(src, FLOOD_FILL_THRESHOLD_SQ as int, out));
    }
    out
}

/// `img` is the sprite `finish_sprite` makes of some RGBA8 picture.
pub open spec fn sprite_of_some_picture(img: SpriteImage) -> bool {
    exists|w: u32, h: u32, px: Seq<u8>| px.len() >= 4 * (w * h) && #[trigger] finished_sprite(w, h, px, img)
}

/// Turns a generated image into a sprite: decode, then `finish_sprite` on
/// the decoded picture. Bytes that do not decode give an `ImageProcessing`
/// error naming the step that failed.
pub fn postprocess_image(raw_bytes: &[u8]) -> (r: Result<SpriteImage, SpriteGenError>)
    ensures
        match r {
            Ok(img) => sprite_of_some_picture(img),
            Err(e) => {
                &&& exists|f: ImageReadFailure| #[trigger] reports_read_failure(f, e)
                &&& e matches SpriteGenError::ImageProcessing(m)
                    && ("format detection failed: "@.is_prefix_of(m@) || "decode failed: "@.is_prefix_of(m@))
            },
        },
{
    match decode_rgba8(raw_bytes) {
        Ok((w, h, px)) => {
            let img = finish_sprite(w, h, px.as_slice());
            assert(px@.len() >= 4 * (w * h) && finished_sprite(w, h, px@, img));
            assert(sprite_of_some_picture(img));
            Ok(img)
        },
        Err(f) => {
            let ghost g = f;
            let e = read_failure_error(&f);
            proof {
                match g {
                    ImageReadFailure::Format(d) =>
                        assert("format detection failed: "@.is_prefix_of("format detection failed: "@ + d@)),
                    ImageReadFailure::Decode(d) =>
                        assert("decode failed: "@.is_prefix_of("decode failed: "@ + d@)),
                }
            }
            Err(e)
        },
    }
}

} // verus!
