use vstd::prelude::*;
use crate::quantize::QuantizeError;

verus! {

/// An 8-bit RGB color.
#[derive(Clone, Copy, Debug, PartialEq, Eq, Structural)]
pub struct Color {
    pub r: u8,
    pub g: u8,
    pub b: u8,
}

pub open spec fn square(d: int) -> int {
    d * d
}

/// Squared Euclidean distance between two colors.
pub open spec fn distance(a: Color, b: Color) -> int {
    square(a.r - b.r) + square(a.g - b.g) + square(a.b - b.b)
}

/// Index of the first entry of `p` at minimal distance from `c`, found by a
/// front-to-back scan that only moves on a strictly smaller distance.
pub open spec fn nearest_index(c: Color, p: Seq<Color>) -> int
    decreases p.len(),
{
    if p.len() <= 1 {
        0
    } else {
        let k = nearest_index(c, p.drop_last());
        if distance(c, p.last()) < distance(c, p[k]) {
            p.len() - 1
        } else {
            k
        }
    }
}

/// The palette entry that `c` is mapped to.
pub open spec fn nearest(c: Color, p: Seq<Color>) -> Color {
    p[nearest_index(c, p)]
}

/// `i` is a closest entry of `p` to `c`, and no earlier entry is as close.
pub open spec fn is_first_closest(c: Color, p: Seq<Color>, i: int) -> bool {
    &&& 0 <= i < p.len()
    &&& forall|j: int| 0 <= j < p.len() ==> distance(c, p[i]) <= distance(c, p[j])
    &&& forall|j: int| 0 <= j < i ==> distance(c, p[i]) < distance(c, p[j])
}

/// The nearest-color search picks a closest palette entry, and on ties the
/// earliest one.
pub proof fn lemma_nearest_is_first_closest(c: Color, p: Seq<Color>)
    requires
        p.len() > 0,
    ensures
        is_first_closest(c, p, nearest_index(c, p)),
    decreases p.len(),
{
    if p.len() > 1 {
        let q = p.drop_last();
        lemma_nearest_is_first_closest(c, q);
        assert forall|j: int| 0 <= j < q.len() implies q[j] == p[j] by {}
    }
}

/// A color is zero distance from another one only when the two are equal.
pub proof fn lemma_distance_zero(a: Color, b: Color)
    ensures
        distance(a, b) >= 0,
        distance(a, b) == 0 <==> a == b,
{
    let dr = a.r - b.r;
    let dg = a.g - b.g;
    let db = a.b - b.b;
    assert(square(dr) >= 0 && square(dg) >= 0 && square(db) >= 0) by (nonlinear_arith);
    assert(square(dr) == 0 ==> dr == 0) by (nonlinear_arith);
    assert(square(dg) == 0 ==> dg == 0) by (nonlinear_arith);
    assert(square(db) == 0 ==> db == 0) by (nonlinear_arith);
    if distance(a, b) == 0 {
        assert(a.r == b.r && a.g == b.g && a.b == b.b);
    }
    if a == b {
        assert(dr == 0 && dg == 0 && db == 0);
        assert(square(dr) == 0 && square(dg) == 0 && square(db) == 0) by (nonlinear_arith)
            requires
                dr == 0 && dg == 0 && db == 0,
        ;
    }
}

/// A color that is already in the palette is mapped to itself.
pub proof fn lemma_nearest_of_member(p: Seq<Color>, k: int)
    requires
        0 <= k < p.len(),
    ensures
        nearest(p[k], p) == p[k],
{
    lemma_nearest_is_first_closest(p[k], p);
    let m = nearest_index(p[k], p);
    lemma_distance_zero(p[k], p[k]);
    lemma_distance_zero(p[k], p[m]);
}

/// Squared Euclidean distance between two colors.
pub fn color_distance(c1: &Color, c2: &Color) -> (r: u32)
    ensures
        r as int == distance(*c1, *c2),
{
    let dr = c1.r as i32 - c2.r as i32;
    let dg = c1.g as i32 - c2.g as i32;
    let db = c1.b as i32 - c2.b as i32;
    assert(0 <= dr * dr <= 65025) by (nonlinear_arith)
        requires
            -255 <= dr <= 255,
    ;
    assert(0 <= dg * dg <= 65025) by (nonlinear_arith)
        requires
            -255 <= dg <= 255,
    ;
    assert(0 <= db * db <= 65025) by (nonlinear_arith)
        requires
            -255 <= db <= 255,
    ;
    (dr * dr + dg * dg + db * db) as u32
}

/// Position of the palette entry that `pixel` is mapped to.
pub fn nearest_position(pixel: &Color, palette: &[Color]) -> (r: usize)
    requires
        palette@.len() > 0,
    ensures
        r as int == nearest_index(*pixel, palette@),
        r < palette@.len(),
{
    let mut best: usize = 0;
    let mut best_dist = color_distance(pixel, &palette[0]);
    let mut i: usize = 1;
    while i < palette.len()
        invariant
            1 <= i <= palette@.len(),
            best as int == nearest_index(*pixel, palette@.subrange(0, i as int)),
            best < i,
            best_dist as int == distance(*pixel, palette@[best as int]),
        decreases palette@.len() - i,
    {
        let d = color_distance(pixel, &palette[i]);
        let ghost q = palette@.subrange(0, i as int + 1);
        assert(q.drop_last() =~= palette@.subrange(0, i as int));
        if d < best_dist {
            best = i;
            best_dist = d;
        }
        i = i + 1;
    }
    assert(palette@.subrange(0, i as int) =~= palette@);
    proof {
        lemma_nearest_is_first_closest(*pixel, palette@);
    }
    best
}

/// The palette entry closest to `pixel`, the first one on ties. An empty
/// palette has no such entry.
pub fn find_nearest_color(pixel: &Color, palette: &[Color]) -> (r: Result<Color, QuantizeError>)
    ensures
        palette@.len() == 0 ==> r == Err::<Color, QuantizeError>(QuantizeError::EmptyPalette),
        palette@.len() > 0 ==> r == Ok::<Color, QuantizeError>(nearest(*pixel, palette@)),
{
    if palette.len() == 0 {
        Err(QuantizeError::EmptyPalette)
    } else {
        let i = nearest_position(pixel, palette);
        Ok(palette[i])
    }
}

} // verus!
