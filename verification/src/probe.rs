//! Troubleshooting: what the pixels read back from the GPU say about the
//! overlay (`--probe`). Reading the framebuffer and printing the report are
//! the caller's part.

use vstd::prelude::*;

verus! {

/// The bytes of a bottom-up RGBA read-back (`glReadPixels` order) with the
/// rows put top row first: `row_bytes` bytes per row, `rows` rows.
pub open spec fn flipped(buffer: Seq<u8>, row_bytes: int, rows: int) -> Seq<u8> {
    Seq::new(buffer.len(), |k: int| buffer[(rows - 1 - k / row_bytes) * row_bytes + k % row_bytes])
}

/// How many of the first `n` pixels have alpha `a`.
pub open spec fn alpha_count(px: Seq<u8>, a: int, n: int) -> nat
    decreases n,
{
    if n <= 0 {
        0
    } else {
        alpha_count(px, a, n - 1) + if px[4 * (n - 1) + 3] == a { 1nat } else { 0nat }
    }
}

/// A visible pixel whose green is above its red and its blue.
pub open spec fn is_green(px: Seq<u8>, i: int) -> bool {
    px[4 * i + 3] != 0 && px[4 * i + 1] > px[4 * i] && px[4 * i + 1] > px[4 * i + 2]
}

/// How many of the first `n` pixels are green.
pub open spec fn green_count(px: Seq<u8>, n: int) -> nat
    decreases n,
{
    if n <= 0 {
        0
    } else {
        green_count(px, n - 1) + if is_green(px, n - 1) { 1nat } else { 0nat }
    }
}

/// What the read-back says.
#[derive(Debug)]
pub struct ProbeStats {
    /// the pixels, top row first
    pub pixels: Vec<u8>,
    /// the most common alpha (the highest such value on a tie); 0 means
    /// the desktop shows through the background
    pub dominant_alpha: u8,
    pub fully_transparent: usize,
    pub green: usize,
}

proof fn lemma_counts_bounded(px: Seq<u8>, a: int, n: int)
    requires
        n >= 0,
    ensures
        alpha_count(px, a, n) <= n,
        green_count(px, n) <= n,
    decreases n,
{
    if n > 0 {
        lemma_counts_bounded(px, a, n - 1);
    }
}

/// The most common alpha of the first `total` pixels, the highest on a tie.
fn dominant_of(pixels: &Vec<u8>, total: usize) -> (d: u8)
    requires
        pixels@.len() == total * 4,
    ensures
        forall|a: int| 0 <= a < 256 ==> #[trigger] alpha_count(pixels@, a, total as int) <= alpha_count(pixels@, d as int, total as int),
        forall|a: int| d < a < 256 ==> #[trigger] alpha_count(pixels@, a, total as int) < alpha_count(pixels@, d as int, total as int),
{
    let mut histogram: Vec<usize> = Vec::new();
    while histogram.len() < 256
        invariant
            histogram.len() <= 256,
            forall|a: int| 0 <= a < histogram.len() ==> histogram@[a] == 0,
        decreases 256 - histogram.len(),
    {
        histogram.push(0);
    }
    let mut p: usize = 0;
    while p < total
        invariant
            p <= total,
            pixels@.len() == total * 4,
            histogram.len() == 256,
            forall|a: int| 0 <= a < 256 ==> #[trigger] histogram@[a] == alpha_count(pixels@, a, p as int),
        decreases total - p,
    {
        proof {
            assert forall|a: int| 0 <= a < 256 implies #[trigger] alpha_count(pixels@, a, p as int) <= p by {
                lemma_counts_bounded(pixels@, a, p as int);
            }
        }
        assert(4 * p + 3 < pixels@.len()) by (nonlinear_arith)
            requires
                p < total,
                pixels@.len() == total * 4,
        ;
        assert(pixels.len() <= usize::MAX);
        assert(4 * p < pixels.len());
        let alpha = pixels[4 * p + 3];
        let old_count = histogram[alpha as usize];
        assert(old_count <= p);
        histogram.set(alpha as usize, old_count + 1);
        p = p + 1;
    }
    let mut dominant: usize = 0;
    let mut a: usize = 1;
    while a < 256
        invariant
            1 <= a <= 256,
            dominant < a,
            histogram.len() == 256,
            forall|b: int| 0 <= b < 256 ==> #[trigger] histogram@[b] == alpha_count(pixels@, b, total as int),
            forall|b: int| 0 <= b < a ==> histogram@[b] <= histogram@[dominant as int],
            forall|b: int| dominant < b < a ==> histogram@[b] < histogram@[dominant as int],
        decreases 256 - a,
    {
        if histogram[a] >= histogram[dominant] {
            dominant = a;
        }
        a = a + 1;
    }
    assert forall|b: int| 0 <= b < 256 implies #[trigger] alpha_count(pixels@, b, total as int) <= alpha_count(pixels@, dominant as int, total as int) by {
        assert(histogram@[b] == alpha_count(pixels@, b, total as int));
        assert(histogram@[dominant as int] == alpha_count(pixels@, dominant as int, total as int));
    }
    assert forall|b: int| dominant < b < 256 implies #[trigger] alpha_count(pixels@, b, total as int) < alpha_count(pixels@, dominant as int, total as int) by {
        assert(histogram@[b] == alpha_count(pixels@, b, total as int));
        assert(histogram@[dominant as int] == alpha_count(pixels@, dominant as int, total as int));
    }
    dominant as u8
}

/// How many of the first `n` pixels have alpha at most 8 (nearly clear).
pub open spec fn faint_count(px: Seq<u8>, n: int) -> nat
    decreases n,
{
    if n <= 0 {
        0
    } else {
        faint_count(px, n - 1) + if px[4 * (n - 1) + 3] <= 8 { 1nat } else { 0nat }
    }
}

/// A pixel that is more than faint and whose green is above its red and blue.
pub open spec fn is_lit_green(px: Seq<u8>, i: int) -> bool {
    px[4 * i + 3] > 8 && px[4 * i + 1] > px[4 * i] && px[4 * i + 1] > px[4 * i + 2]
}

/// How many of the first `n` pixels are lit green.
pub open spec fn lit_green_count(px: Seq<u8>, n: int) -> nat
    decreases n,
{
    if n <= 0 {
        0
    } else {
        lit_green_count(px, n - 1) + if is_lit_green(px, n - 1) { 1nat } else { 0nat }
    }
}

proof fn lemma_window_counts_bounded(px: Seq<u8>, n: int)
    requires
        n >= 0,
    ensures
        faint_count(px, n) <= n,
        lit_green_count(px, n) <= n,
        alpha_count(px, 0, n) <= n,
    decreases n,
{
    if n > 0 {
        lemma_window_counts_bounded(px, n - 1);
    }
}

/// What a window's own bitmap says (the macOS window check).
#[derive(Debug)]
pub struct WindowStats {
    /// pixels with alpha at most 8
    pub faint: usize,
    /// the most common alpha (the highest such value on a tie)
    pub dominant_alpha: u8,
    /// pixels more than faint whose green is above red and blue
    pub green: usize,
    /// fully transparent pixels
    pub holes: usize,
}

/// Measure `total` RGBA pixels, packed four bytes each.
pub fn window_stats(pixels: &Vec<u8>, total: usize) -> (r: WindowStats)
    requires
        pixels@.len() == total * 4,
    ensures
        r.faint == faint_count(pixels@, total as int),
        r.green == lit_green_count(pixels@, total as int),
        r.holes == alpha_count(pixels@, 0, total as int),
        forall|a: int| 0 <= a < 256 ==> #[trigger] alpha_count(pixels@, a, total as int) <= alpha_count(pixels@, r.dominant_alpha as int, total as int),
        forall|a: int| r.dominant_alpha < a < 256 ==> #[trigger] alpha_count(pixels@, a, total as int) < alpha_count(pixels@, r.dominant_alpha as int, total as int),
{
    let dominant = dominant_of(pixels, total);
    let mut faint: usize = 0;
    let mut green: usize = 0;
    let mut holes: usize = 0;
    let mut p: usize = 0;
    while p < total
        invariant
            p <= total,
            pixels@.len() == total * 4,
            faint == faint_count(pixels@, p as int),
            green == lit_green_count(pixels@, p as int),
            holes == alpha_count(pixels@, 0, p as int),
        decreases total - p,
    {
        proof {
            lemma_window_counts_bounded(pixels@, p as int);
        }
        assert(4 * p + 3 < pixels@.len()) by (nonlinear_arith)
            requires
                p < total,
                pixels@.len() == total * 4,
        ;
        assert(pixels.len() <= usize::MAX);
        assert(4 * p < pixels.len());
        let i = 4 * p;
        let alpha = pixels[i + 3];
        if alpha <= 8 {
            faint = faint + 1;
        }
        if alpha == 0 {
            holes = holes + 1;
        }
        if alpha > 8 && pixels[i + 1] > pixels[i] && pixels[i + 1] > pixels[i + 2] {
            green = green + 1;
        }
        p = p + 1;
    }
    WindowStats { faint, dominant_alpha: dominant, green, holes }
}

/// Flip a `width` × `height` read-back top row first and measure it.
pub fn probe_stats(buffer: &Vec<u8>, width: usize, height: usize) -> (r: ProbeStats)
    requires
        buffer.len() == width * height * 4,
        width * 4 <= usize::MAX,
    ensures
        r.pixels@ == flipped(buffer@, width * 4, height as int),
        r.fully_transparent == alpha_count(r.pixels@, 0, width * height),
        r.green == green_count(r.pixels@, width * height),
        forall|a: int| 0 <= a < 256 ==> #[trigger] alpha_count(r.pixels@, a, width * height) <= alpha_count(r.pixels@, r.dominant_alpha as int, width * height),
        forall|a: int| r.dominant_alpha < a < 256 ==> #[trigger] alpha_count(r.pixels@, a, width * height) < alpha_count(r.pixels@, r.dominant_alpha as int, width * height),
{
    let row = width * 4;
    let ghost target = flipped(buffer@, row as int, height as int);
    let mut pixels: Vec<u8> = Vec::new();
    let mut y: usize = 0;
    assert(row * height == buffer.len()) by (nonlinear_arith)
        requires
            row == width * 4,
            buffer.len() == width * height * 4,
    ;
    while y < height
        invariant
            y <= height,
            row == width * 4,
            row * height == buffer.len(),
            target == flipped(buffer@, row as int, height as int),
            pixels@ == target.take(y * row),
            y * row <= buffer.len(),
        decreases height - y,
    {
        assert((height - 1 - y) * row + row <= height * row) by (nonlinear_arith)
            requires
                y < height,
        ;
        let src = (height - 1 - y) * row;
        assert((y + 1) * row <= height * row) by (nonlinear_arith)
            requires
                y < height,
        ;
        let mut x: usize = 0;
        while x < row
            invariant
                y < height,
                x <= row,
                row == width * 4,
                row * height == buffer.len(),
                src == (height - 1 - y) * row,
                src + row <= buffer.len(),
                target == flipped(buffer@, row as int, height as int),
                pixels@ == target.take(y * row + x),
                (y + 1) * row <= buffer.len(),
            decreases row - x,
        {
            proof {
                let k = y * row + x;
                assert(y * row + x < (y + 1) * row) by (nonlinear_arith)
                    requires
                        x < row,
                ;
                assert(k < target.len());
                vstd::arithmetic::div_mod::lemma_fundamental_div_mod_converse_div(k, row as int, y as int, x as int);
                vstd::arithmetic::div_mod::lemma_fundamental_div_mod_converse_mod(k, row as int, y as int, x as int);
                assert(k / (row as int) == y);
                assert(k % (row as int) == x);
                assert(target[k] == buffer@[(height - 1 - y) * row + x]);
            }
            pixels.push(buffer[src + x]);
            x = x + 1;
            assert(pixels@ =~= target.take(y * row + x));
        }
        assert((y + 1) * row == y * row + row) by (nonlinear_arith);
        assert((y + 2) * row <= buffer.len() || y + 1 >= height) by (nonlinear_arith)
            requires
                row * height == buffer.len(),
                y + 1 <= height,
        ;
        y = y + 1;
    }
    assert(target.take(height * row) =~= target) by {
        assert(height * row == buffer.len()) by (nonlinear_arith)
            requires
                row * height == buffer.len(),
        ;
    }
    let total = width * height;
    assert(pixels@.len() == total * 4);
    let dominant = dominant_of(&pixels, total);
    let mut transparent: usize = 0;
    let mut green: usize = 0;
    let mut p: usize = 0;
    while p < total
        invariant
            p <= total,
            pixels@.len() == total * 4,
            transparent == alpha_count(pixels@, 0, p as int),
            green == green_count(pixels@, p as int),
        decreases total - p,
    {
        proof {
            lemma_counts_bounded(pixels@, 0, p as int);
        }
        assert(4 * p + 3 < pixels@.len()) by (nonlinear_arith)
            requires
                p < total,
                pixels@.len() == total * 4,
        ;
        assert(pixels.len() <= usize::MAX);
        assert(4 * p < pixels.len());
        let i = 4 * p;
        let alpha = pixels[i + 3];
        if alpha == 0 {
            transparent = transparent + 1;
        } else if pixels[i + 1] > pixels[i] && pixels[i + 1] > pixels[i + 2] {
            green = green + 1;
        }
        p = p + 1;
    }
    ProbeStats { pixels, dominant_alpha: dominant, fully_transparent: transparent, green }
}

} // verus!
