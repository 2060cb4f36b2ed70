use vstd::prelude::*;
use vstd::arithmetic::div_mod::lemma_fundamental_div_mod;
use crate::color::Color;

verus! {

/// Most entries a palette can have.
pub const MAX_PALETTE: usize = 256;

pub open spec fn rgb(r: int, g: int, b: int) -> Color {
    Color { r: r as u8, g: g as u8, b: b as u8 }
}

/// The eight colors every palette starts with: black, white, red, green, blue,
/// yellow, magenta, cyan.
pub open spec fn anchor_colors() -> Seq<Color> {
    seq![
        rgb(0, 0, 0),
        rgb(255, 255, 255),
        rgb(255, 0, 0),
        rgb(0, 255, 0),
        rgb(0, 0, 255),
        rgb(255, 255, 0),
        rgb(255, 0, 255),
        rgb(0, 255, 255),
    ]
}

/// A requested palette size brought into `1..=256`.
pub open spec fn clamp_size(size: int) -> int {
    if size < 1 {
        1
    } else if size > MAX_PALETTE {
        MAX_PALETTE as int
    } else {
        size
    }
}

/// The least `s` with `s * s * s >= m`: it grows by one exactly where the cube
/// of the previous value falls short of `m`.
pub open spec fn ceil_cbrt(m: nat) -> nat
    decreases m,
{
    if m == 0 {
        0
    } else {
        let s = ceil_cbrt((m - 1) as nat);
        if s * s * s >= m {
            s
        } else {
            s + 1
        }
    }
}

/// Number of grid values `0, stride, 2 * stride, ...` that do not exceed 255.
pub open spec fn level_count(stride: int) -> int {
    255int / stride + 1
}

/// The regular grid of the RGB cube with the given stride, red outermost,
/// then green, then blue, each ascending.
pub open spec fn cube_candidates(stride: int) -> Seq<Color> {
    let l = level_count(stride);
    Seq::new(
        (l * l * l) as nat,
        |i: int| rgb((i / (l * l)) * stride, ((i / l) % l) * stride, (i % l) * stride),
    )
}

/// Appends `c` when the palette still has room for it and does not hold it yet.
pub open spec fn offer(p: Seq<Color>, c: Color, n: int) -> Seq<Color> {
    if p.len() < n && !p.contains(c) {
        p.push(c)
    } else {
        p
    }
}

/// `p` after offering it each candidate in turn.
pub open spec fn fill(p: Seq<Color>, cands: Seq<Color>, n: int) -> Seq<Color>
    decreases cands.len(),
{
    if cands.len() == 0 {
        p
    } else {
        offer(fill(p, cands.drop_last(), n), cands.last(), n)
    }
}

/// Grid stride for a palette of `n > 8` entries.
pub open spec fn stride_for(n: int) -> int {
    255int / (ceil_cbrt((n - 8) as nat) as int)
}

/// The palette built for a requested size.
pub open spec fn palette_of(size: int) -> Seq<Color> {
    let n = clamp_size(size);
    if n <= 8 {
        anchor_colors().take(n)
    } else {
        fill(anchor_colors(), cube_candidates(stride_for(n)), n)
    }
}

/// The palette is a function of the requested size, and of its clamped
/// value alone: sizes that clamp alike give the same palette.
pub proof fn lemma_palette_depends_on_clamped_size(a: int, b: int)
    requires
        clamp_size(a) == clamp_size(b),
    ensures
        palette_of(a) == palette_of(b),
        palette_of(a) == palette_of(clamp_size(a)),
{
}

pub proof fn lemma_anchors_distinct()
    ensures
        anchor_colors().no_duplicates(),
        anchor_colors().len() == 8,
{
    let a = anchor_colors();
    assert forall|i: int, j: int| 0 <= i < 8 && 0 <= j < 8 && i != j implies a[i] != a[j] by {
        assert(a[i].r != a[j].r || a[i].g != a[j].g || a[i].b != a[j].b);
    }
}

/// Filling keeps the starting palette as a prefix, adds no duplicate, and
/// grows only up to `n`.
pub proof fn lemma_fill_shape(p: Seq<Color>, cands: Seq<Color>, n: int)
    requires
        p.no_duplicates(),
    ensures
        fill(p, cands, n).no_duplicates(),
        fill(p, cands, n).len() >= p.len(),
        fill(p, cands, n).take(p.len() as int) == p,
        fill(p, cands, n).len() <= if p.len() > n { p.len() as int } else { n },
    decreases cands.len(),
{
    if cands.len() > 0 {
        lemma_fill_shape(p, cands.drop_last(), n);
        let q = fill(p, cands.drop_last(), n);
        let c = cands.last();
        if q.len() < n && !q.contains(c) {
            let r = q.push(c);
            assert forall|i: int, j: int|
                0 <= i < r.len() && 0 <= j < r.len() && i != j implies r[i] != r[j] by {
                if i == q.len() {
                    assert(!q.contains(c));
                    assert(q[j] != c);
                } else if j == q.len() {
                    assert(q[i] != c);
                }
            }
            assert(r.take(p.len() as int) =~= q.take(p.len() as int));
        }
    }
}

/// Once the palette has `n` entries, later candidates change nothing.
pub proof fn lemma_fill_saturated(p: Seq<Color>, cands: Seq<Color>, n: int, i: int, j: int)
    requires
        0 <= i <= j <= cands.len(),
        fill(p, cands.take(i), n).len() >= n,
    ensures
        fill(p, cands.take(j), n) == fill(p, cands.take(i), n),
    decreases j - i,
{
    if j > i {
        lemma_fill_saturated(p, cands, n, i, j - 1);
        assert(cands.take(j).drop_last() =~= cands.take(j - 1));
    }
}

proof fn lemma_grid_bounds(i: int, l: int, stride: int)
    requires
        0 <= i < l * l * l,
        l == level_count(stride),
        1 <= stride <= 255,
    ensures
        0 <= (i / (l * l)) * stride <= 255,
        0 <= ((i / l) % l) * stride <= 255,
        0 <= (i % l) * stride <= 255,
{
    let ll = l * l;
    lemma_fundamental_div_mod(255, stride);
    assert(l >= 1) by (nonlinear_arith)
        requires
            l == 255int / stride + 1,
            255int == stride * (255int / stride) + 255int % stride,
            0 <= 255int % stride < stride,
            stride >= 1,
    ;
    assert(ll > 0) by (nonlinear_arith)
        requires
            l >= 1,
            ll == l * l,
    ;
    lemma_fundamental_div_mod(i, ll);
    lemma_fundamental_div_mod(i, l);
    lemma_fundamental_div_mod(i / l, l);
    let q = i / ll;
    assert(0 <= q < l) by (nonlinear_arith)
        requires
            i == ll * q + i % ll,
            0 <= i % ll < ll,
            0 <= i < ll * l,
            ll > 0,
    ;
    assert(0 <= q * stride <= 255) by (nonlinear_arith)
        requires
            0 <= q <= 255int / stride,
            255int == stride * (255int / stride) + 255int % stride,
            0 <= 255int % stride,
            stride >= 1,
    ;
    let m = (i / l) % l;
    assert(0 <= m * stride <= 255) by (nonlinear_arith)
        requires
            0 <= m <= 255int / stride,
            255int == stride * (255int / stride) + 255int % stride,
            0 <= 255int % stride,
            stride >= 1,
    ;
    let t = i % l;
    assert(0 <= t * stride <= 255) by (nonlinear_arith)
        requires
            0 <= t <= 255int / stride,
            255int == stride * (255int / stride) + 255int % stride,
            0 <= 255int % stride,
            stride >= 1,
    ;
}

/// Whether `palette` holds `c`.
fn holds_color(palette: &Vec<Color>, c: &Color) -> (r: bool)
    ensures
        r == palette@.contains(*c),
{
    let mut i: usize = 0;
    while i < palette.len()
        invariant
            i <= palette@.len(),
            forall|j: int| 0 <= j < i ==> palette@[j] != *c,
        decreases palette@.len() - i,
    {
        if palette[i] == *c {
            return true;
        }
        i = i + 1;
    }
    false
}

/// Smallest `s` whose cube reaches `m`.
fn cube_root_ceil(m: usize) -> (s: usize)
    requires
        m <= MAX_PALETTE,
    ensures
        s as nat == ceil_cbrt(m as nat),
        s <= m,
        m >= 1 ==> s >= 1,
{
    let mut s: usize = 0;
    let mut i: usize = 0;
    while i < m
        invariant
            i <= m <= 256,
            s as nat == ceil_cbrt(i as nat),
            s <= i,
            i >= 1 ==> s >= 1,
        decreases m - i,
    {
        i = i + 1;
        assert(s * s <= 65536 && s * s * s <= 16777216) by (nonlinear_arith)
            requires
                s <= 256,
        ;
        if s * s * s < i {
            s = s + 1;
        }
    }
    s
}

/// Builds the palette for a requested size, clamped to `1..=256`: the anchor
/// colors, then the cube grid colors not already present, stopping at the size.
pub fn generate_palette(size: usize) -> (r: Vec<Color>)
    ensures
        r@ == palette_of(size as int),
        r@.no_duplicates(),
        r@.len() <= clamp_size(size as int),
        r@.len() >= if clamp_size(size as int) < 8 { clamp_size(size as int) } else { 8 },
        clamp_size(size as int) >= 8 ==> r@.take(8) == anchor_colors(),
{
    let n: usize = if size < 1 {
        1
    } else if size > MAX_PALETTE {
        MAX_PALETTE
    } else {
        size
    };
    let mut palette: Vec<Color> = Vec::new();
    palette.push(Color { r: 0, g: 0, b: 0 });
    palette.push(Color { r: 255, g: 255, b: 255 });
    palette.push(Color { r: 255, g: 0, b: 0 });
    palette.push(Color { r: 0, g: 255, b: 0 });
    palette.push(Color { r: 0, g: 0, b: 255 });
    palette.push(Color { r: 255, g: 255, b: 0 });
    palette.push(Color { r: 255, g: 0, b: 255 });
    palette.push(Color { r: 0, g: 255, b: 255 });
    proof {
        lemma_anchors_distinct();
        assert(palette@ =~= anchor_colors());
    }
    if n <= 8 {
        palette.truncate(n);
        proof {
            assert(palette@ =~= anchor_colors().take(n as int));
            assert(n == 8 ==> palette@.take(8) =~= palette@);
        }
        return palette;
    }
    let steps = cube_root_ceil(n - 8);
    assert(255int / steps as int >= 1 && 255int / steps as int <= 255) by (nonlinear_arith)
        requires
            1 <= steps <= 255,
    ;
    let stride = 255 / steps;
    let levels = 255 / stride + 1;
    assert(levels * levels * levels <= 256 * 256 * 256) by (nonlinear_arith)
        requires
            1 <= levels <= 256,
    ;
    assert(levels * levels <= 65536) by (nonlinear_arith)
        requires
            1 <= levels <= 256,
    ;
    let total = levels * levels * levels;
    let ghost cands = cube_candidates(stride as int);
    let ghost start = palette@;
    let mut i: usize = 0;
    while i < total && palette.len() < n
        invariant
            i <= total,
            1 <= stride <= 255,
            levels as int == level_count(stride as int),
            levels <= 256,
            levels * levels <= 65536,
            total as int == levels * levels * levels,
            cands == cube_candidates(stride as int),
            cands.len() == total,
            palette@ == fill(start, cands.take(i as int), n as int),
        decreases total - i,
    {
        proof {
            lemma_grid_bounds(i as int, levels as int, stride as int);
        }
        let c = Color {
            r: ((i / (levels * levels)) * stride) as u8,
            g: (((i / levels) % levels) * stride) as u8,
            b: ((i % levels) * stride) as u8,
        };
        if !holds_color(&palette, &c) {
            palette.push(c);
        }
        proof {
            assert(cands.take(i + 1).drop_last() =~= cands.take(i as int));
        }
        i = i + 1;
    }
    proof {
        if i < total {
            lemma_fill_saturated(start, cands, n as int, i as int, total as int);
        }
        assert(cands.take(total as int) =~= cands);
        lemma_fill_shape(start, cands, n as int);
    }
    palette
}

} // verus!
