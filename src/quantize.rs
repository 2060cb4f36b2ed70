use vstd::prelude::*;
use vstd::arithmetic::div_mod::{lemma_fundamental_div_mod, lemma_fundamental_div_mod_converse};
use crate::color::{Color, nearest, nearest_position};

verus! {

/// A row-major grid of pixels; well formed when it holds `width * height` of them.
pub struct PixelGrid {
    pub width: usize,
    pub height: usize,
    pub pixels: Vec<Color>,
}

impl PixelGrid {
    pub open spec fn well_formed(&self) -> bool {
        self.pixels@.len() == self.width * self.height
    }
}

/// Why a grid could not be quantized.
#[derive(Clone, Copy, Debug, PartialEq, Eq, Structural)]
pub enum QuantizeError {
    /// The palette has no entry to map pixels to.
    EmptyPalette,
    /// The pixel count differs from `width * height`.
    DimensionMismatch,
}

/// Direct mode: every pixel becomes its nearest palette entry.
pub open spec fn direct_pixels(px: Seq<Color>, p: Seq<Color>) -> Seq<Color> {
    Seq::new(px.len(), |i: int| nearest(px[i], p))
}

pub open spec fn magnitude(v: int) -> int {
    if v < 0 {
        -v
    } else {
        v
    }
}

/// The whole channel level that the nearest-color search sees for a working
/// value `v` given in sixteenths: clamped into `0..=255`, rounded to nearest.
pub open spec fn channel_level(v: int) -> int {
    let c = if v < 0 {
        0
    } else if v > 4080 {
        4080
    } else {
        v
    };
    (c + 8) / 16
}

/// `e * w / 16`, rounded toward zero.
pub open spec fn share(e: int, w: int) -> int {
    if e >= 0 {
        e * w / 16
    } else {
        -((-e) * w / 16)
    }
}

/// What cell `j` receives from the error `e` of pixel `(x, y)`, at raster
/// index `k` of a `w` by `h` grid: 7/16 to the right, 3/16 below left,
/// 5/16 below and 1/16 below right, each only inside the grid.
pub open spec fn received(j: int, k: int, x: int, y: int, w: int, h: int, e: int) -> int {
    if j == k + 1 && x + 1 < w {
        share(e, 7)
    } else if j == k + w - 1 && y + 1 < h && x > 0 {
        share(e, 3)
    } else if j == k + w && y + 1 < h {
        share(e, 5)
    } else if j == k + w + 1 && y + 1 < h && x + 1 < w {
        share(e, 1)
    } else {
        0
    }
}

/// An error buffer after the error of pixel `(x, y)` is diffused.
pub open spec fn diffuse(buf: Seq<int>, k: int, x: int, y: int, w: int, h: int, e: int) -> Seq<int> {
    Seq::new(buf.len(), |j: int| buf[j] + received(j, k, x, y, w, h, e))
}

/// Error-diffusion state: accumulated error per channel in sixteenths of a
/// level, and the output so far.
pub struct DitherState {
    pub err_r: Seq<int>,
    pub err_g: Seq<int>,
    pub err_b: Seq<int>,
    pub out: Seq<Color>,
}

/// Processes the pixel at raster index `k`.
pub open spec fn dither_step(
    s: DitherState,
    px: Seq<Color>,
    p: Seq<Color>,
    w: int,
    h: int,
    k: int,
) -> DitherState {
    let x = k % w;
    let y = k / w;
    let vr = 16 * px[k].r + s.err_r[k];
    let vg = 16 * px[k].g + s.err_g[k];
    let vb = 16 * px[k].b + s.err_b[k];
    let target = Color {
        r: channel_level(vr) as u8,
        g: channel_level(vg) as u8,
        b: channel_level(vb) as u8,
    };
    let q = nearest(target, p);
    DitherState {
        err_r: diffuse(s.err_r, k, x, y, w, h, vr - 16 * q.r),
        err_g: diffuse(s.err_g, k, x, y, w, h, vg - 16 * q.g),
        err_b: diffuse(s.err_b, k, x, y, w, h, vb - 16 * q.b),
        out: s.out.push(q),
    }
}

/// The state after the first `k` pixels in raster order.
pub open spec fn dither_prefix(px: Seq<Color>, p: Seq<Color>, w: int, h: int, k: nat) -> DitherState
    decreases k,
{
    if k == 0 {
        DitherState {
            err_r: Seq::new(px.len(), |i: int| 0),
            err_g: Seq::new(px.len(), |i: int| 0),
            err_b: Seq::new(px.len(), |i: int| 0),
            out: Seq::empty(),
        }
    } else {
        dither_step(dither_prefix(px, p, w, h, (k - 1) as nat), px, p, w, h, k - 1)
    }
}

/// Dithering mode: Floyd-Steinberg error diffusion in raster order.
pub open spec fn dithered_pixels(px: Seq<Color>, p: Seq<Color>, w: int, h: int) -> Seq<Color> {
    dither_prefix(px, p, w, h, px.len()).out
}

/// Quantizing an image that direct mode produced, with the same palette and
/// again in direct mode, changes nothing.
pub proof fn lemma_direct_idempotent(px: Seq<Color>, p: Seq<Color>)
    requires
        p.len() > 0,
    ensures
        direct_pixels(direct_pixels(px, p), p) == direct_pixels(px, p),
{
    let once = direct_pixels(px, p);
    assert forall|i: int| 0 <= i < once.len() implies nearest(once[i], p) == once[i] by {
        crate::color::lemma_nearest_is_first_closest(px[i], p);
        crate::color::lemma_nearest_of_member(p, crate::color::nearest_index(px[i], p));
    }
    assert(direct_pixels(once, p) =~= once);
}

fn direct_map(pixels: &Vec<Color>, palette: &[Color]) -> (r: Vec<Color>)
    requires
        palette@.len() > 0,
    ensures
        r@ == direct_pixels(pixels@, palette@),
{
    let mut out: Vec<Color> = Vec::new();
    let mut i: usize = 0;
    while i < pixels.len()
        invariant
            palette@.len() > 0,
            i <= pixels@.len(),
            out@ =~= direct_pixels(pixels@, palette@).take(i as int),
        decreases pixels@.len() - i,
    {
        let k = nearest_position(&pixels[i], palette);
        out.push(palette[k]);
        i = i + 1;
    }
    out
}


/// Bound on the magnitude of the error of a pixel of row `y`, in sixteenths
/// of a level.
pub open spec fn err_cap(y: int) -> int {
    8192 * y + 12272
}

/// Bound on 16 times the magnitude of what cell `xp` of the row below row `y`
/// has gathered once the pixels of row `y` before column `x` are done.
pub open spec fn below_cap(xp: int, x: int, y: int) -> int {
    if xp + 1 < x {
        9 * err_cap(y)
    } else if xp + 1 == x {
        6 * err_cap(y)
    } else if xp == x {
        err_cap(y)
    } else {
        0
    }
}

/// Bounds that an error buffer meets before the pixel at raster index `k`,
/// column `x` and row `y` of a `w` wide grid is processed.
pub open spec fn gathered_bounded(buf: Seq<int>, k: int, x: int, y: int, w: int) -> bool {
    let rs = k - x;
    forall|j: int|
        0 <= j < buf.len() ==> {
            &&& j == k ==> 16 * magnitude(#[trigger] buf[j]) <= 9 * err_cap(y - 1) + 7 * err_cap(y)
            &&& k < j < rs + w ==> 16 * magnitude(buf[j]) <= 9 * err_cap(y - 1)
            &&& rs + w <= j < rs + 2 * w ==> 16 * magnitude(buf[j]) <= below_cap(j - rs - w, x, y)
            &&& rs + 2 * w <= j ==> buf[j] == 0
        }
}

proof fn lemma_share_bound(e: int, w: int)
    requires
        1 <= w <= 16,
    ensures
        16 * magnitude(share(e, w)) <= w * magnitude(e),
        magnitude(share(e, w)) <= magnitude(e),
{
    if e >= 0 {
        assert(16 * (e * w / 16) <= w * e && e * w / 16 >= 0) by (nonlinear_arith)
            requires
                e >= 0,
                w >= 1,
        ;
        assert(e * w <= 16 * e) by (nonlinear_arith)
            requires
                e >= 0,
                w <= 16,
        ;
    } else {
        let f = -e;
        assert(16 * (f * w / 16) <= w * f && f * w / 16 >= 0) by (nonlinear_arith)
            requires
                f >= 0,
                w >= 1,
        ;
        assert(f * w <= 16 * f) by (nonlinear_arith)
            requires
                f >= 0,
                w <= 16,
        ;
    }
}

/// Diffusing an error within the row bound keeps the buffer within its
/// bounds, one pixel further on.
proof fn lemma_diffuse_bounded(buf: Seq<int>, k: int, x: int, y: int, w: int, h: int, e: int)
    requires
        gathered_bounded(buf, k, x, y, w),
        0 <= x < w,
        0 <= y < h,
        x <= k < buf.len(),
        y + 1 == h ==> buf.len() == k - x + w,
        y + 1 < h ==> buf.len() >= k - x + 2 * w,
        16 * magnitude(e) <= 16 * err_cap(y),
    ensures
        gathered_bounded(
            diffuse(buf, k, x, y, w, h, e),
            k + 1,
            if x + 1 < w { x + 1 } else { 0 },
            if x + 1 < w { y } else { y + 1 },
            w,
        ),
{
    lemma_share_bound(e, 7);
    lemma_share_bound(e, 3);
    lemma_share_bound(e, 5);
    lemma_share_bound(e, 1);
    let nb = diffuse(buf, k, x, y, w, h, e);
    let x2 = if x + 1 < w { x + 1 } else { 0 };
    let y2 = if x + 1 < w { y } else { y + 1 };
    assert forall|j: int| 0 <= j < nb.len() implies {
        let rs = k + 1 - x2;
        &&& j == k + 1 ==> 16 * magnitude(#[trigger] nb[j]) <= 9 * err_cap(y2 - 1) + 7 * err_cap(y2)
        &&& k + 1 < j < rs + w ==> 16 * magnitude(nb[j]) <= 9 * err_cap(y2 - 1)
        &&& rs + w <= j < rs + 2 * w ==> 16 * magnitude(nb[j]) <= below_cap(j - rs - w, x2, y2)
        &&& rs + 2 * w <= j ==> nb[j] == 0
    } by {
        assert(nb[j] == buf[j] + received(j, k, x, y, w, h, e));
        assert(16 * magnitude(buf[j]) <= 9 * err_cap(y - 1) + 7 * err_cap(y) || j < k);
    }
}


pub open spec fn ints(s: Seq<i128>) -> Seq<int> {
    Seq::new(s.len(), |i: int| s[i] as int)
}

/// A bound that no error buffer entry's magnitude exceeds.
pub const ERR_LIMIT: i128 = 0x1_0000_0000_0000_0000_0000;

fn level(v: i128) -> (r: u8)
    ensures
        r as int == channel_level(v as int),
{
    let c: i128 = if v < 0 {
        0
    } else if v > 4080 {
        4080
    } else {
        v
    };
    ((c + 8) / 16) as u8
}

fn share_of(e: i128, w: i128) -> (r: i128)
    requires
        1 <= w <= 16,
        -ERR_LIMIT <= e <= ERR_LIMIT,
    ensures
        r as int == share(e as int, w as int),
{
    assert(-16 * ERR_LIMIT <= e * w <= 16 * ERR_LIMIT) by (nonlinear_arith)
        requires
            1 <= w <= 16,
            -ERR_LIMIT <= e <= ERR_LIMIT,
    ;
    if e >= 0 {
        e * w / 16
    } else {
        let f = -e;
        assert(f * w <= 16 * ERR_LIMIT) by (nonlinear_arith)
            requires
                1 <= w <= 16,
                0 <= f <= ERR_LIMIT,
        ;
        -(f * w / 16)
    }
}

/// Adds to `buf` what each unvisited neighbour of pixel `(x, y)` receives of
/// the error `e`.
fn spread(buf: &mut Vec<i128>, k: usize, x: usize, y: usize, width: usize, height: usize, e: i128)
    requires
        x < width,
        y < height,
        x <= k < old(buf)@.len() <= usize::MAX,
        x + 1 < width ==> k + 1 < old(buf)@.len(),
        y + 1 < height ==> k + width < old(buf)@.len(),
        y + 1 < height && x + 1 < width ==> k + width + 1 < old(buf)@.len(),
        -ERR_LIMIT <= e <= ERR_LIMIT,
        forall|j: int| k < j < old(buf)@.len() ==> -ERR_LIMIT <= #[trigger] old(buf)@[j] <= ERR_LIMIT,
    ensures
        final(buf)@.len() == old(buf)@.len(),
        ints(final(buf)@) == diffuse(
            ints(old(buf)@),
            k as int,
            x as int,
            y as int,
            width as int,
            height as int,
            e as int,
        ),
{
    let ghost before = ints(buf@);
    proof {
        lemma_share_bound(e as int, 7);
        lemma_share_bound(e as int, 3);
        lemma_share_bound(e as int, 5);
        lemma_share_bound(e as int, 1);
    }
    if x + 1 < width {
        let v = buf[k + 1] + share_of(e, 7);
        buf.set(k + 1, v);
    }
    if y + 1 < height {
        if x > 0 {
            let v = buf[k + width - 1] + share_of(e, 3);
            buf.set(k + width - 1, v);
        }
        let v = buf[k + width] + share_of(e, 5);
        buf.set(k + width, v);
        if x + 1 < width {
            let v = buf[k + width + 1] + share_of(e, 1);
            buf.set(k + width + 1, v);
        }
    }
    assert(ints(buf@) =~= diffuse(
        before,
        k as int,
        x as int,
        y as int,
        width as int,
        height as int,
        e as int,
    ));
}


proof fn lemma_gathered_limit(buf: Seq<int>, k: int, x: int, y: int, w: int)
    requires
        gathered_bounded(buf, k, x, y, w),
        0 <= x < w,
        x <= k,
        0 <= y < 0x1_0000_0000_0000_0000,
    ensures
        forall|j: int| k <= j < buf.len() ==> -ERR_LIMIT <= #[trigger] buf[j] <= ERR_LIMIT,
{
    assert forall|j: int| k <= j < buf.len() implies -ERR_LIMIT <= #[trigger] buf[j] <= ERR_LIMIT by {
        assert(16 * magnitude(buf[j]) <= 16 * err_cap(y));
    }
}

fn dither_map(pixels: &Vec<Color>, palette: &[Color], width: usize, height: usize) -> (r: Vec<Color>)
    requires
        palette@.len() > 0,
        pixels@.len() == width * height,
    ensures
        r@ == dithered_pixels(pixels@, palette@, width as int, height as int),
{
    let n = pixels.len();
    let mut err_r: Vec<i128> = Vec::new();
    let mut err_g: Vec<i128> = Vec::new();
    let mut err_b: Vec<i128> = Vec::new();
    let mut i: usize = 0;
    while i < n
        invariant
            i <= n,
            err_r@.len() == i && err_g@.len() == i && err_b@.len() == i,
            forall|j: int| 0 <= j < i ==> err_r@[j] == 0 && err_g@[j] == 0 && err_b@[j] == 0,
        decreases n - i,
    {
        err_r.push(0);
        err_g.push(0);
        err_b.push(0);
        i = i + 1;
    }
    let ghost px = pixels@;
    let ghost p = palette@;
    let ghost w = width as int;
    let ghost h = height as int;
    proof {
        let s0 = dither_prefix(px, p, w, h, 0);
        assert(ints(err_r@) =~= s0.err_r);
        assert(ints(err_g@) =~= s0.err_g);
        assert(ints(err_b@) =~= s0.err_b);
    }
    let mut out: Vec<Color> = Vec::new();
    let mut k: usize = 0;
    let mut x: usize = 0;
    let mut y: usize = 0;
    while k < n
        invariant
            px == pixels@,
            p == palette@,
            w == width,
            h == height,
            n == px.len(),
            n == w * h,
            p.len() > 0,
            k <= n,
            k == y * w + x,
            x <= k,
            k < n ==> x < width,
            err_r@.len() == n && err_g@.len() == n && err_b@.len() == n,
            ints(err_r@) == dither_prefix(px, p, w, h, k as nat).err_r,
            ints(err_g@) == dither_prefix(px, p, w, h, k as nat).err_g,
            ints(err_b@) == dither_prefix(px, p, w, h, k as nat).err_b,
            out@ == dither_prefix(px, p, w, h, k as nat).out,
            k < n ==> gathered_bounded(ints(err_r@), k as int, x as int, y as int, w),
            k < n ==> gathered_bounded(ints(err_g@), k as int, x as int, y as int, w),
            k < n ==> gathered_bounded(ints(err_b@), k as int, x as int, y as int, w),
        decreases n - k,
    {
        let ghost yi = y as int;
        let ghost xi = x as int;
        proof {
            assert(yi < h) by (nonlinear_arith)
                requires
                    k == yi * w + xi,
                    k < n,
                    n == w * h,
                    xi >= 0,
                    w >= 1,
            ;
            assert(yi * w + w <= n && (yi + 1 == h ==> n == yi * w + w) && (yi + 1 < h ==> n >= yi
                * w + 2 * w)) by (nonlinear_arith)
                requires
                    yi < h,
                    yi >= 0,
                    n == w * h,
                    w >= 1,
            ;
            lemma_fundamental_div_mod_converse(k as int, w, yi, xi);
            lemma_gathered_limit(ints(err_r@), k as int, xi, yi, w);
            lemma_gathered_limit(ints(err_g@), k as int, xi, yi, w);
            lemma_gathered_limit(ints(err_b@), k as int, xi, yi, w);
            assert(ints(err_r@)[k as int] == err_r@[k as int] as int);
            assert(ints(err_g@)[k as int] == err_g@[k as int] as int);
            assert(ints(err_b@)[k as int] == err_b@[k as int] as int);
        }
        let c = pixels[k];
        let vr: i128 = 16 * (c.r as i128) + err_r[k];
        let vg: i128 = 16 * (c.g as i128) + err_g[k];
        let vb: i128 = 16 * (c.b as i128) + err_b[k];
        let target = Color { r: level(vr), g: level(vg), b: level(vb) };
        let qi = nearest_position(&target, palette);
        let q = palette[qi];
        let er: i128 = vr - 16 * (q.r as i128);
        let eg: i128 = vg - 16 * (q.g as i128);
        let eb: i128 = vb - 16 * (q.b as i128);
        proof {
            lemma_diffuse_bounded(ints(err_r@), k as int, xi, yi, w, h, er as int);
            lemma_diffuse_bounded(ints(err_g@), k as int, xi, yi, w, h, eg as int);
            lemma_diffuse_bounded(ints(err_b@), k as int, xi, yi, w, h, eb as int);
            assert forall|j: int| k < j < n implies -ERR_LIMIT <= #[trigger] err_r@[j] <= ERR_LIMIT by {
                assert(ints(err_r@)[j] == err_r@[j] as int);
            }
            assert forall|j: int| k < j < n implies -ERR_LIMIT <= #[trigger] err_g@[j] <= ERR_LIMIT by {
                assert(ints(err_g@)[j] == err_g@[j] as int);
            }
            assert forall|j: int| k < j < n implies -ERR_LIMIT <= #[trigger] err_b@[j] <= ERR_LIMIT by {
                assert(ints(err_b@)[j] == err_b@[j] as int);
            }
        }
        spread(&mut err_r, k, x, y, width, height, er);
        spread(&mut err_g, k, x, y, width, height, eg);
        spread(&mut err_b, k, x, y, width, height, eb);
        out.push(q);
        k = k + 1;
        if x + 1 < width {
            x = x + 1;
        } else {
            x = 0;
            y = y + 1;
            assert(k == y * w) by (nonlinear_arith)
                requires
                    k == (yi * w + xi) + 1,
                    xi + 1 == w,
                    y == yi + 1,
            ;
        }
    }
    out
}

/// Maps every pixel of `grid` onto `palette`, directly or with error
/// diffusion. Fails on an empty palette, then on a grid whose pixel count is
/// not `width * height`.
pub fn quantize(grid: &PixelGrid, palette: &[Color], dither: bool) -> (r: Result<
    PixelGrid,
    QuantizeError,
>)
    ensures
        palette@.len() == 0 ==> r == Err::<PixelGrid, QuantizeError>(QuantizeError::EmptyPalette),
        palette@.len() > 0 && !grid.well_formed() ==> r == Err::<PixelGrid, QuantizeError>(
            QuantizeError::DimensionMismatch,
        ),
        palette@.len() > 0 && grid.well_formed() ==> r is Ok,
        r matches Ok(out) ==> {
            &&& out.width == grid.width
            &&& out.height == grid.height
            &&& out.well_formed()
            &&& out.pixels@ == if dither {
                dithered_pixels(
                    grid.pixels@,
                    palette@,
                    grid.width as int,
                    grid.height as int,
                )
            } else {
                direct_pixels(grid.pixels@, palette@)
            }
        },
{
    if palette.len() == 0 {
        return Err(QuantizeError::EmptyPalette);
    }
    let len = grid.pixels.len();
    match grid.width.checked_mul(grid.height) {
        None => {
            return Err(QuantizeError::DimensionMismatch);
        },
        Some(n) => {
            if n != len {
                return Err(QuantizeError::DimensionMismatch);
            }
        },
    }
    let pixels = if dither {
        dither_map(&grid.pixels, palette, grid.width, grid.height)
    } else {
        direct_map(&grid.pixels, palette)
    };
    proof {
        if dither {
            assert(pixels@.len() == grid.pixels@.len()) by {
                lemma_dither_length(grid.pixels@, palette@, grid.width as int, grid.height as int, grid.pixels@.len());
            }
        }
    }
    Ok(PixelGrid { width: grid.width, height: grid.height, pixels })
}

proof fn lemma_dither_length(px: Seq<Color>, p: Seq<Color>, w: int, h: int, k: nat)
    ensures
        dither_prefix(px, p, w, h, k).out.len() == k,
    decreases k,
{
    if k > 0 {
        lemma_dither_length(px, p, w, h, (k - 1) as nat);
    }
}

/// What the four neighbours of an inner pixel receive adds up to its error,
/// short by less than a quarter of a level (four sixteenths) and never
/// overshooting it: diffusion neither invents error nor loses it beyond
/// fixed-point rounding.
pub proof fn lemma_diffusion_conserves_error(e: int)
    ensures
        e >= 0 ==> 0 <= e - (share(e, 7) + share(e, 3) + share(e, 5) + share(e, 1)) < 4,
        e < 0 ==> 0 <= (share(e, 7) + share(e, 3) + share(e, 5) + share(e, 1)) - e < 4,
{
    let f = if e >= 0 {
        e
    } else {
        -e
    };
    assert(0 <= f - (f * 7 / 16 + f * 3 / 16 + f * 5 / 16 + f * 1 / 16) < 4) by (nonlinear_arith)
        requires
            f >= 0,
    ;
}


/// Sum of a sequence of integers.
pub open spec fn total(s: Seq<int>) -> int
    decreases s.len(),
{
    if s.len() == 0 {
        0
    } else {
        total(s.drop_last()) + s.last()
    }
}

/// Channel `c` (0 red, 1 green, 2 blue) of a color.
pub open spec fn chan(col: Color, c: int) -> int {
    if c == 0 {
        col.r as int
    } else if c == 1 {
        col.g as int
    } else {
        col.b as int
    }
}

/// Error buffer of channel `c`.
pub open spec fn err_buf(s: DitherState, c: int) -> Seq<int> {
    if c == 0 {
        s.err_r
    } else if c == 1 {
        s.err_g
    } else {
        s.err_b
    }
}

/// Error of pixel `k` in channel `c`, in sixteenths of a level: its working
/// value (input plus gathered error) less its output.
pub open spec fn pixel_error(px: Seq<Color>, p: Seq<Color>, w: int, h: int, k: int, c: int) -> int {
    16 * chan(px[k], c) + err_buf(dither_prefix(px, p, w, h, k as nat), c)[k] - 16 * chan(
        dithered_pixels(px, p, w, h)[k],
        c,
    )
}

/// What the neighbours inside the grid receive of the error `e` of pixel `(x, y)`.
pub open spec fn kept_share(x: int, y: int, w: int, h: int, e: int) -> int {
    (if x + 1 < w { share(e, 7) } else { 0 }) + (if y + 1 < h && x > 0 { share(e, 3) } else { 0 })
        + (if y + 1 < h { share(e, 5) } else { 0 }) + (if y + 1 < h && x + 1 < w {
        share(e, 1)
    } else {
        0
    })
}

/// The part of pixel `k`'s error that is passed on to no pixel: rounding of
/// the shares, and shares that would fall outside the grid.
pub open spec fn lost_error(px: Seq<Color>, p: Seq<Color>, w: int, h: int, k: int, c: int) -> int {
    let e = pixel_error(px, p, w, h, k, c);
    e - kept_share(k % w, k / w, w, h, e)
}

/// Output drift of channel `c` over the first `k` pixels, in sixteenths.
pub open spec fn drift_prefix(px: Seq<Color>, p: Seq<Color>, w: int, h: int, c: int, k: int) -> Seq<int> {
    Seq::new(k as nat, |j: int| 16 * (chan(px[j], c) - chan(dithered_pixels(px, p, w, h)[j], c)))
}

/// Error lost in channel `c` over the first `k` pixels.
pub open spec fn lost_prefix(px: Seq<Color>, p: Seq<Color>, w: int, h: int, c: int, k: int) -> Seq<int> {
    Seq::new(k as nat, |j: int| lost_error(px, p, w, h, j, c))
}

proof fn lemma_total_update(s: Seq<int>, i: int, d: int)
    requires
        0 <= i < s.len(),
    ensures
        total(s.update(i, s[i] + d)) == total(s) + d,
    decreases s.len(),
{
    let u = s.update(i, s[i] + d);
    if i == s.len() - 1 {
        assert(u.drop_last() =~= s.drop_last());
    } else {
        lemma_total_update(s.drop_last(), i, d);
        assert(u.drop_last() =~= s.drop_last().update(i, s[i] + d));
    }
}

proof fn lemma_total_first(s: Seq<int>)
    requires
        s.len() > 0,
    ensures
        total(s) == s[0] + total(s.subrange(1, s.len() as int)),
    decreases s.len(),
{
    if s.len() == 1 {
        assert(s.drop_last().len() == 0);
        assert(total(s.drop_last()) == 0);
        assert(s.subrange(1, 1).len() == 0);
        assert(total(s.subrange(1, 1)) == 0);
    } else {
        lemma_total_first(s.drop_last());
        assert(s.subrange(1, s.len() as int).last() == s.last());
        assert(s.subrange(1, s.len() as int).drop_last() =~= s.drop_last().subrange(
            1,
            s.len() - 1,
        ));
    }
}

proof fn lemma_total_zero(s: Seq<int>)
    requires
        forall|i: int| 0 <= i < s.len() ==> s[i] == 0,
    ensures
        total(s) == 0,
    decreases s.len(),
{
    if s.len() > 0 {
        lemma_total_zero(s.drop_last());
    }
}

proof fn lemma_total_new_step(k: int, f: spec_fn(int) -> int)
    requires
        k >= 0,
    ensures
        total(Seq::new((k + 1) as nat, f)) == total(Seq::new(k as nat, f)) + f(k),
{
    assert(Seq::new((k + 1) as nat, f).drop_last() =~= Seq::new(k as nat, f));
}

spec fn add_at(s: Seq<int>, i: int, d: int, cond: bool) -> Seq<int> {
    if cond {
        s.update(i, s[i] + d)
    } else {
        s
    }
}

proof fn lemma_total_add_at(s: Seq<int>, i: int, d: int, cond: bool)
    requires
        cond ==> 0 <= i < s.len(),
    ensures
        total(add_at(s, i, d, cond)) == total(s) + if cond { d } else { 0 },
        add_at(s, i, d, cond).len() == s.len(),
{
    if cond {
        lemma_total_update(s, i, d);
    }
}

/// The unvisited cells gain exactly what the neighbours inside the grid keep.
proof fn lemma_diffuse_total(b: Seq<int>, k: int, x: int, y: int, w: int, h: int, e: int)
    requires
        0 <= x < w,
        x <= k < b.len(),
        k - x + w <= b.len(),
        y + 1 < h ==> k - x + 2 * w <= b.len(),
    ensures
        total(diffuse(b, k, x, y, w, h, e).subrange(k + 1, b.len() as int)) == total(
            b.subrange(k + 1, b.len() as int),
        ) + kept_share(x, y, w, h, e),
{
    let n = b.len() as int;
    let t = b.subrange(k + 1, n);
    let u1 = add_at(t, 0, share(e, 7), x + 1 < w);
    let u2 = add_at(u1, w - 2, share(e, 3), y + 1 < h && x > 0);
    let u3 = add_at(u2, w - 1, share(e, 5), y + 1 < h);
    let u4 = add_at(u3, w, share(e, 1), y + 1 < h && x + 1 < w);
    lemma_total_add_at(t, 0, share(e, 7), x + 1 < w);
    lemma_total_add_at(u1, w - 2, share(e, 3), y + 1 < h && x > 0);
    lemma_total_add_at(u2, w - 1, share(e, 5), y + 1 < h);
    lemma_total_add_at(u3, w, share(e, 1), y + 1 < h && x + 1 < w);
    assert(diffuse(b, k, x, y, w, h, e).subrange(k + 1, n) =~= u4);
}

proof fn lemma_prefix_lengths(px: Seq<Color>, p: Seq<Color>, w: int, h: int, k: nat, c: int)
    ensures
        err_buf(dither_prefix(px, p, w, h, k), c).len() == px.len(),
    decreases k,
{
    if k > 0 {
        lemma_prefix_lengths(px, p, w, h, (k - 1) as nat, c);
    }
}

proof fn lemma_output_settled(px: Seq<Color>, p: Seq<Color>, w: int, h: int, k: int, m: nat)
    requires
        0 <= k < m,
    ensures
        dither_prefix(px, p, w, h, m).out[k] == dither_prefix(px, p, w, h, (k + 1) as nat).out[k],
    decreases m,
{
    if m > k + 1 {
        lemma_output_settled(px, p, w, h, k, (m - 1) as nat);
        lemma_dither_length(px, p, w, h, (m - 1) as nat);
    }
}

proof fn lemma_drift_prefix(px: Seq<Color>, p: Seq<Color>, w: int, h: int, c: int, k: int)
    requires
        w >= 1,
        px.len() == w * h,
        0 <= k <= px.len(),
    ensures
        total(drift_prefix(px, p, w, h, c, k)) == total(lost_prefix(px, p, w, h, c, k)) + total(
            err_buf(dither_prefix(px, p, w, h, k as nat), c).subrange(k, px.len() as int),
        ),
    decreases k,
{
    let n = px.len() as int;
    if k == 0 {
        let b = err_buf(dither_prefix(px, p, w, h, 0), c);
        lemma_total_zero(b.subrange(0, n));
        assert(drift_prefix(px, p, w, h, c, 0).len() == 0);
        assert(lost_prefix(px, p, w, h, c, 0).len() == 0);
    } else {
        let j = k - 1;
        lemma_drift_prefix(px, p, w, h, c, j);
        let b = err_buf(dither_prefix(px, p, w, h, j as nat), c);
        let b2 = err_buf(dither_prefix(px, p, w, h, k as nat), c);
        lemma_prefix_lengths(px, p, w, h, j as nat, c);
        let e = pixel_error(px, p, w, h, j, c);
        let x = j % w;
        let y = j / w;
        lemma_fundamental_div_mod(j, w);
        assert(y < h && y >= 0 && y * w + w <= n && (y + 1 < h ==> y * w + 2 * w <= n))
            by (nonlinear_arith)
            requires
                j == w * y + x,
                0 <= x < w,
                0 <= j < n,
                n == w * h,
                w >= 1,
        ;
        lemma_dither_length(px, p, w, h, px.len());
        lemma_output_settled(px, p, w, h, j, px.len());
        let s0 = dither_prefix(px, p, w, h, j as nat);
        lemma_dither_length(px, p, w, h, j as nat);
        assert(dither_prefix(px, p, w, h, k as nat) == dither_step(s0, px, p, w, h, j));
        let vr = 16 * px[j].r + s0.err_r[j];
        let vg = 16 * px[j].g + s0.err_g[j];
        let vb = 16 * px[j].b + s0.err_b[j];
        let target = Color {
            r: channel_level(vr) as u8,
            g: channel_level(vg) as u8,
            b: channel_level(vb) as u8,
        };
        let q = nearest(target, p);
        assert(dither_prefix(px, p, w, h, k as nat).out == s0.out.push(q));
        assert(dithered_pixels(px, p, w, h)[j] == q);
        assert(b2 == diffuse(b, j, x, y, w, h, e));
        lemma_diffuse_total(b, j, x, y, w, h, e);
        lemma_total_first(b.subrange(j, n));
        assert(b.subrange(j, n).subrange(1, n - j) =~= b.subrange(k, n));
        let fd = |i: int| 16 * (chan(px[i], c) - chan(dithered_pixels(px, p, w, h)[i], c));
        let fl = |i: int| lost_error(px, p, w, h, i, c);
        lemma_total_new_step(j, fd);
        lemma_total_new_step(j, fl);
        assert(drift_prefix(px, p, w, h, c, k) =~= Seq::new(k as nat, fd));
        assert(drift_prefix(px, p, w, h, c, j) =~= Seq::new(j as nat, fd));
        assert(lost_prefix(px, p, w, h, c, k) =~= Seq::new(k as nat, fl));
        assert(lost_prefix(px, p, w, h, c, j) =~= Seq::new(j as nat, fl));
    }
}

/// Over the whole image, the drift that dithering leaves in a channel (input
/// less output, summed over all pixels, in sixteenths of a level) equals the
/// error passed on to no pixel: the rounding of each pixel's shares and the
/// shares that would leave the grid through its left, right and bottom borders.
pub proof fn lemma_dithering_drift_is_lost_error(px: Seq<Color>, p: Seq<Color>, w: int, h: int, c: int)
    requires
        w >= 1,
        px.len() == w * h,
    ensures
        total(drift_prefix(px, p, w, h, c, px.len() as int)) == total(
            lost_prefix(px, p, w, h, c, px.len() as int),
        ),
{
    let n = px.len() as int;
    lemma_drift_prefix(px, p, w, h, c, n);
    lemma_prefix_lengths(px, p, w, h, n as nat, c);
    assert(err_buf(dither_prefix(px, p, w, h, n as nat), c).subrange(n, n).len() == 0);
}

} // verus!
