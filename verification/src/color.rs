//! Colors, the squared-distance metric, and the evenly spaced palette.

use vstd::prelude::*;
use vstd::arithmetic::div_mod::lemma_fundamental_div_mod_converse;
use vstd::arithmetic::div_mod::lemma_multiply_divide_lt;

verus! {

/// A color: red, green and blue channels, 8 bits each.
pub type Rgb = (u8, u8, u8);

/// Squared Euclidean distance between two colors in RGB space.
pub open spec fn color_dist_spec(a: Rgb, b: Rgb) -> int {
    (a.0 - b.0) * (a.0 - b.0) + (a.1 - b.1) * (a.1 - b.1) + (a.2 - b.2) * (a.2 - b.2)
}

/// Swapping the two colors does not change their distance.
pub proof fn lemma_color_dist_symmetric(a: Rgb, b: Rgb)
    ensures
        color_dist_spec(a, b) == color_dist_spec(b, a),
{
    assert((a.0 - b.0) * (a.0 - b.0) == (b.0 - a.0) * (b.0 - a.0)) by (nonlinear_arith);
    assert((a.1 - b.1) * (a.1 - b.1) == (b.1 - a.1) * (b.1 - a.1)) by (nonlinear_arith);
    assert((a.2 - b.2) * (a.2 - b.2) == (b.2 - a.2) * (b.2 - a.2)) by (nonlinear_arith);
}

/// A color is at distance zero from itself.
pub proof fn lemma_color_dist_self_zero(a: Rgb)
    ensures
        color_dist_spec(a, a) == 0,
{
}

/// Squared Euclidean distance between two colors.
pub fn color_dist(a: Rgb, b: Rgb) -> (d: i32)
    ensures
        d == color_dist_spec(a, b),
        0 <= d <= 195075,
{
    let dr = a.0 as i32 - b.0 as i32;
    let dg = a.1 as i32 - b.1 as i32;
    let db = a.2 as i32 - b.2 as i32;
    assert(0 <= dr * dr <= 65025) by (nonlinear_arith)
        requires -255 <= dr <= 255;
    assert(0 <= dg * dg <= 65025) by (nonlinear_arith)
        requires -255 <= dg <= 255;
    assert(0 <= db * db <= 65025) by (nonlinear_arith)
        requires -255 <= db <= 255;
    dr * dr + dg * dg + db * db
}

/// Channel value of subdivision step `i` out of `n`: the floor of `i * 255 / n`.
pub open spec fn chan_val(i: int, n: int) -> u8
    recommends
        0 < n,
        0 <= i < n,
{
    (i * 255 / n) as u8
}

/// The color at position `k` of the palette that subdivides each channel `n`
/// ways: red varies slowest, blue fastest.
pub open spec fn palette_color(n: int, k: int) -> Rgb {
    (chan_val(k / n / n, n), chan_val(k / n % n, n), chan_val(k % n, n))
}

proof fn lemma_chan_arith(i: int, n: int)
    requires
        0 <= i < n,
        n * n * n <= usize::MAX,
    ensures
        i * 255 <= usize::MAX,
        i * 255 / n <= 255,
{
    if n <= 256 {
        assert(i * 255 <= 256 * 255) by (nonlinear_arith)
            requires 0 <= i < n && n <= 256;
    } else {
        assert(i * 255 < n * n) by (nonlinear_arith)
            requires 0 <= i < n && 256 < n;
        assert(n * n <= n * n * n) by (nonlinear_arith)
            requires 256 < n;
    }
    assert(i * 255 < n * 256) by (nonlinear_arith)
        requires 0 <= i < n;
    lemma_multiply_divide_lt(i * 255, n, 256);
}

/// Build the palette of `num_colors` cubed colors covering an evenly spaced
/// subdivision of the RGB cube, enumerated red-major.
pub fn generate_equally_spaced_rgb_colors(num_colors: usize) -> (colors: Vec<Rgb>)
    requires
        num_colors * num_colors * num_colors <= usize::MAX,
    ensures
        colors@.len() == num_colors * num_colors * num_colors,
        forall|k: int| 0 <= k < colors@.len() ==> colors@[k] == palette_color(num_colors as int, k),
{
    let n = num_colors;
    let mut colors: Vec<Rgb> = Vec::new();
    let mut ri: usize = 0;
    while ri < n
        invariant
            ri <= n,
            n == num_colors,
            n * n * n <= usize::MAX,
            colors@.len() == ri * n * n,
            forall|k: int| 0 <= k < colors@.len() ==> colors@[k] == palette_color(n as int, k),
        decreases n - ri,
    {
        let mut gi: usize = 0;
        while gi < n
            invariant
                ri < n,
                gi <= n,
                n == num_colors,
                n * n * n <= usize::MAX,
                colors@.len() == ri * n * n + gi * n,
                forall|k: int| 0 <= k < colors@.len() ==> colors@[k] == palette_color(n as int, k),
            decreases n - gi,
        {
            let mut bi: usize = 0;
            while bi < n
                invariant
                    ri < n,
                    gi < n,
                    bi <= n,
                    n == num_colors,
                    n * n * n <= usize::MAX,
                    colors@.len() == ri * n * n + gi * n + bi,
                    forall|k: int| 0 <= k < colors@.len() ==> colors@[k] == palette_color(n as int, k),
                decreases n - bi,
            {
                proof {
                    lemma_chan_arith(ri as int, n as int);
                    lemma_chan_arith(gi as int, n as int);
                    lemma_chan_arith(bi as int, n as int);
                }
                let r = (ri * 255 / n) as u8;
                let g = (gi * 255 / n) as u8;
                let b = (bi * 255 / n) as u8;
                proof {
                    let ni = n as int;
                    let rii = ri as int;
                    let gii = gi as int;
                    let bii = bi as int;
                    let k = colors@.len() as int;
                    assert((rii * ni + gii) * ni + bii == rii * ni * ni + gii * ni + bii)
                        by (nonlinear_arith);
                    lemma_fundamental_div_mod_converse(k, ni, rii * ni + gii, bii);
                    lemma_fundamental_div_mod_converse(rii * ni + gii, ni, rii, gii);
                }
                colors.push((r, g, b));
                bi = bi + 1;
            }
            proof {
                assert((gi + 1) * (n as int) == gi * n + n) by (nonlinear_arith);
            }
            gi = gi + 1;
        }
        proof {
            assert((ri + 1) * (n as int) * (n as int) == ri * n * n + n * n) by (nonlinear_arith);
        }
        ri = ri + 1;
    }
    colors
}

/// Palette generation is deterministic: two palettes built for the same
/// subdivision count are equal, element for element.
pub proof fn lemma_palette_generation_deterministic(a: Seq<Rgb>, b: Seq<Rgb>, n: int)
    requires
        a.len() == n * n * n,
        forall|k: int| 0 <= k < a.len() ==> a[k] == palette_color(n, k),
        b.len() == n * n * n,
        forall|k: int| 0 <= k < b.len() ==> b[k] == palette_color(n, k),
    ensures
        a == b,
{
    assert(a =~= b);
}

} // verus!
