use vstd::prelude::*;
use super::palette::PaletteColor;

verus! {

/// Color matching algorithm to use.
#[derive(Debug, Clone, Copy, PartialEq, Eq)]
pub enum ColorMatchAlgo {
    /// Fast squared Euclidean distance in RGB space.
    Rgb,
    /// Perceptual CIEDE2000 distance in CIE L*a*b* space.
    Ciede2000,
}

/// Squared Euclidean distance between two RGB colors.
pub open spec fn rgb_dist_sq(r1: u8, g1: u8, b1: u8, r2: u8, g2: u8, b2: u8) -> int {
    (r1 - r2) * (r1 - r2) + (g1 - g2) * (g1 - g2) + (b1 - b2) * (b1 - b2)
}

/// Squared RGB distance from (r, g, b) to a palette color.
pub open spec fn dist_to(r: u8, g: u8, b: u8, c: PaletteColor) -> int {
    rgb_dist_sq(r, g, b, c.r, c.g, c.b)
}

/// Index of the first palette entry at minimal RGB distance among the first `n` entries.
pub open spec fn first_nearest_index(r: u8, g: u8, b: u8, palette: Seq<PaletteColor>, n: int) -> int
    decreases n,
{
    if n <= 1 {
        0
    } else {
        let best = first_nearest_index(r, g, b, palette, n - 1);
        if dist_to(r, g, b, palette[n - 1]) < dist_to(r, g, b, palette[best]) {
            n - 1
        } else {
            best
        }
    }
}

/// The palette color nearest to (r, g, b); among equally near colors, the first one.
pub open spec fn nearest_rgb(r: u8, g: u8, b: u8, palette: Seq<PaletteColor>) -> PaletteColor {
    palette[first_nearest_index(r, g, b, palette, palette.len() as int)]
}

pub(crate) proof fn lemma_first_nearest(r: u8, g: u8, b: u8, palette: Seq<PaletteColor>, n: int)
    requires
        1 <= n <= palette.len(),
    ensures
        0 <= first_nearest_index(r, g, b, palette, n) < n,
        forall|j: int|
            0 <= j < n ==> dist_to(r, g, b, palette[first_nearest_index(r, g, b, palette, n)])
                <= #[trigger] dist_to(r, g, b, palette[j]),
        forall|j: int|
            0 <= j < first_nearest_index(r, g, b, palette, n) ==> dist_to(
                r,
                g,
                b,
                palette[first_nearest_index(r, g, b, palette, n)],
            ) < #[trigger] dist_to(r, g, b, palette[j]),
    decreases n,
{
    if n > 1 {
        lemma_first_nearest(r, g, b, palette, n - 1);
    }
}

fn color_dist_sq(r: u8, g: u8, b: u8, c: &PaletteColor) -> (d: u32)
    ensures
        d == dist_to(r, g, b, *c),
{
    let dr = r as i32 - c.r as i32;
    let dg = g as i32 - c.g as i32;
    let db = b as i32 - c.b as i32;
    assert(dr * dr <= 65025) by (nonlinear_arith)
        requires
            -255 <= dr <= 255,
    ;
    assert(dg * dg <= 65025) by (nonlinear_arith)
        requires
            -255 <= dg <= 255,
    ;
    assert(db * db <= 65025) by (nonlinear_arith)
        requires
            -255 <= db <= 255,
    ;
    assert(dr * dr >= 0 && dg * dg >= 0 && db * db >= 0) by (nonlinear_arith);
    (dr * dr + dg * dg + db * db) as u32
}

/// Find the nearest palette color using squared Euclidean distance in RGB.
/// Among colors at the same distance, the first one in the palette wins.
pub fn find_nearest_color_rgb(r: u8, g: u8, b: u8, palette: &[PaletteColor]) -> (best: PaletteColor)
    requires
        palette@.len() > 0,
    ensures
        best == nearest_rgb(r, g, b, palette@),
        palette@.contains(best),
        forall|j: int|
            0 <= j < palette@.len() ==> dist_to(r, g, b, best) <= #[trigger] dist_to(
                r,
                g,
                b,
                palette@[j],
            ),
{
    let ghost n = palette@.len() as int;
    let mut best = palette[0];
    let mut best_dist = u32::MAX;
    let mut i: usize = 0;
    let mut exact = false;
    proof {
        assert forall|k: int| 1 <= k <= n implies 0 <= #[trigger] first_nearest_index(
            r,
            g,
            b,
            palette@,
            k,
        ) < k by {
            lemma_first_nearest(r, g, b, palette@, k);
        }
    }
    while i < palette.len() && !exact
        invariant
            0 <= i <= n,
            n == palette@.len(),
            n > 0,
            i == 0 ==> best == palette@[0] && best_dist == u32::MAX,
            i > 0 ==> best == palette@[first_nearest_index(r, g, b, palette@, i as int)]
                && best_dist == dist_to(r, g, b, best),
            exact ==> i > 0 && forall|k: int|
                i <= k <= n ==> #[trigger] first_nearest_index(r, g, b, palette@, k)
                    == first_nearest_index(r, g, b, palette@, i as int),
            forall|k: int|
                1 <= k <= n ==> 0 <= #[trigger] first_nearest_index(r, g, b, palette@, k) < k,
        decreases n - i,
    {
        let color = palette[i];
        let dist = color_dist_sq(r, g, b, &color);
        if dist < best_dist {
            best_dist = dist;
            best = color;
            if dist == 0 {
                // An exact match cannot be beaten by any later entry.
                exact = true;
                proof {
                    assert forall|k: int| i < k <= n implies #[trigger] first_nearest_index(
                        r,
                        g,
                        b,
                        palette@,
                        k,
                    ) == i as int by {
                        lemma_exact_stays(r, g, b, palette@, i as int, k);
                    }
                }
            }
        }
        i += 1;
    }
    proof {
        lemma_first_nearest(r, g, b, palette@, n);
        let fi = first_nearest_index(r, g, b, palette@, n);
        assert(palette@[fi] == best);
    }
    best
}

proof fn lemma_exact_stays(r: u8, g: u8, b: u8, palette: Seq<PaletteColor>, i: int, k: int)
    requires
        0 <= i < k <= palette.len(),
        first_nearest_index(r, g, b, palette, i + 1) == i,
        dist_to(r, g, b, palette[i]) == 0,
    ensures
        first_nearest_index(r, g, b, palette, k) == i,
    decreases k,
{
    if k > i + 1 {
        lemma_exact_stays(r, g, b, palette, i, k - 1);
        assert(dist_to(r, g, b, palette[k - 1]) >= 0) by (nonlinear_arith);
    }
}

} // verus!
