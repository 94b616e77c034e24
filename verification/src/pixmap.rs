//! A minimal RGBA canvas with straight (non-premultiplied) alpha, and the
//! blending and erasing the overlay needs.
//!
//! The overlay wants "a green bar with knocked-out glyphs", so besides
//! source-over blending it can punch already painted pixels back to
//! transparent with `erase`.
//!
//! Alpha and coverage are bytes here (0 for none, 255 for all), and every
//! blend is computed exactly and rounded to the nearest byte.

use vstd::prelude::*;
use crate::chars::{chars_of, debug_quoted, push_all, quote_debug, string_of, trim, trim_bounds};

verus! {

/// A colour; `a` is the opacity, 255 for opaque.
#[derive(Debug, Clone, Copy, PartialEq, Eq, Structural)]
pub struct Color {
    pub r: u8,
    pub g: u8,
    pub b: u8,
    pub a: u8,
}

/// Whether `c` is a hexadecimal digit, as `char::to_digit(16)` accepts it.
pub open spec fn is_hex(c: char) -> bool {
    ('0' <= c <= '9') || ('a' <= c <= 'f') || ('A' <= c <= 'F')
}

/// The value of a hexadecimal digit.
pub open spec fn hex_value(c: char) -> int {
    if '0' <= c <= '9' {
        c as int - '0' as int
    } else if 'a' <= c <= 'f' {
        c as int - 'a' as int + 10
    } else {
        c as int - 'A' as int + 10
    }
}

/// `str::trim_start_matches('#')`.
pub open spec fn strip_hashes(s: Seq<char>) -> Seq<char>
    decreases s.len(),
{
    if s.len() > 0 && s[0] == '#' {
        strip_hashes(s.drop_first())
    } else {
        s
    }
}

/// The byte written by two hexadecimal digits.
pub open spec fn hex_byte(h: Seq<char>, i: int) -> u8 {
    (hex_value(h[i]) * 16 + hex_value(h[i + 1])) as u8
}

/// The colour `#RGB`, `#RRGGBB` or `#RRGGBBAA` stands for, given the
/// digits after the `#`.
pub open spec fn color_of_hex(h: Seq<char>) -> Color {
    if h.len() == 3 {
        Color {
            r: (hex_value(h[0]) * 17) as u8,
            g: (hex_value(h[1]) * 17) as u8,
            b: (hex_value(h[2]) * 17) as u8,
            a: 255,
        }
    } else if h.len() == 6 {
        Color { r: hex_byte(h, 0), g: hex_byte(h, 2), b: hex_byte(h, 4), a: 255 }
    } else {
        Color { r: hex_byte(h, 0), g: hex_byte(h, 2), b: hex_byte(h, 4), a: hex_byte(h, 6) }
    }
}

/// The digits of a colour setting: surrounding whitespace and any leading
/// `#` removed.
pub open spec fn color_digits(text: Seq<char>) -> Seq<char> {
    strip_hashes(trim(text))
}

/// What parsing a colour setting gives.
pub open spec fn color_result(text: Seq<char>) -> Result<Color, Seq<char>> {
    let h = color_digits(text);
    if !(forall|i: int| 0 <= i < h.len() ==> is_hex(#[trigger] h[i])) {
        Err("颜色只能由 16 进制字符组成："@ + debug_quoted(text))
    } else if h.len() == 3 || h.len() == 6 || h.len() == 8 {
        Ok(color_of_hex(h))
    } else {
        Err("颜色需要 3、6 或 8 位 16 进制："@ + debug_quoted(text))
    }
}

fn hex_digit(c: char) -> (r: u8)
    requires
        is_hex(c),
    ensures
        r == hex_value(c),
        r < 16,
{
    if '0' <= c && c <= '9' {
        ((c as u32) - 48) as u8
    } else if 'a' <= c && c <= 'f' {
        ((c as u32) - 97 + 10) as u8
    } else {
        ((c as u32) - 65 + 10) as u8
    }
}

impl Color {
    /// An opaque colour.
    pub fn rgb(r: u8, g: u8, b: u8) -> (c: Color)
        ensures
            c == (Color { r, g, b, a: 255 }),
    {
        Color { r, g, b, a: 255 }
    }

    /// No colour at all.
    pub fn transparent() -> (c: Color)
        ensures
            c == (Color { r: 0, g: 0, b: 0, a: 0 }),
    {
        Color { r: 0, g: 0, b: 0, a: 0 }
    }

    /// Parse `#RRGGBB` / `#RGB` / `RRGGBB`; `#RRGGBBAA` with alpha as well.
    pub fn parse(text: &str) -> (r: Result<Color, String>)
        ensures
            match r {
                Ok(c) => color_result(text@) == Ok::<Color, Seq<char>>(c),
                Err(e) => color_result(text@) == Err::<Color, Seq<char>>(e@),
            },
    {
        let v = chars_of(text);
        let (lo, hi) = trim_bounds(&v, 0, v.len());
        let mut start = lo;
        assert(v@.subrange(0, v.len() as int) =~= v@);
        assert(v@.subrange(lo as int, hi as int) == trim(text@));
        while start < hi && v[start] == '#'
            invariant
                lo <= start <= hi <= v.len(),
                v@ == text@,
                strip_hashes(v@.subrange(start as int, hi as int)) == color_digits(text@),
            decreases hi - start,
        {
            assert(v@.subrange(start as int, hi as int).drop_first() =~= v@.subrange(start + 1, hi as int));
            start = start + 1;
        }
        let ghost h = v@.subrange(start as int, hi as int);
        assert(h == color_digits(text@));
        let mut digits: Vec<u8> = Vec::new();
        let mut i = start;
        while i < hi
            invariant
                start <= i <= hi <= v.len(),
                v@ == text@,
                h == color_digits(text@),
                h == v@.subrange(start as int, hi as int),
                digits.len() == i - start,
                forall|k: int| 0 <= k < digits.len() ==> is_hex(#[trigger] h[k]) && digits@[k] == hex_value(h[k]),
                forall|k: int| 0 <= k < digits.len() ==> #[trigger] digits@[k] < 16,
            decreases hi - i,
        {
            let c = v[i];
            if !(('0' <= c && c <= '9') || ('a' <= c && c <= 'f') || ('A' <= c && c <= 'F')) {
                assert(h[i - start] == c);
                assert(!is_hex(h[i - start]));
                assert(!(forall|k: int| 0 <= k < h.len() ==> is_hex(#[trigger] h[k])));
                let mut msg = chars_of("颜色只能由 16 进制字符组成：");
                let q = quote_debug(&v);
                assert(q@ == debug_quoted(text@));
                push_all(&mut msg, &q);
                assert(msg@ == "颜色只能由 16 进制字符组成："@ + debug_quoted(text@));
                assert(color_result(text@) == Err::<Color, Seq<char>>(msg@));
                return Err(string_of(&msg));
            }
            digits.push(hex_digit(c));
            i = i + 1;
        }
        let n = digits.len();
        if n == 3 {
            Ok(Color::rgb(digits[0] * 17, digits[1] * 17, digits[2] * 17))
        } else if n == 6 {
            Ok(Color::rgb(digits[0] * 16 + digits[1], digits[2] * 16 + digits[3], digits[4] * 16 + digits[5]))
        } else if n == 8 {
            Ok(Color {
                r: digits[0] * 16 + digits[1],
                g: digits[2] * 16 + digits[3],
                b: digits[4] * 16 + digits[5],
                a: digits[6] * 16 + digits[7],
            })
        } else {
            let mut msg = chars_of("颜色需要 3、6 或 8 位 16 进制：");
            push_all(&mut msg, &quote_debug(&v));
            Err(string_of(&msg))
        }
    }

    /// The same colour with another opacity.
    pub fn with_alpha(self, a: u8) -> (c: Color)
        ensures
            c == (Color { a, ..self }),
    {
        Color { a, ..self }
    }

    /// The four bytes R, G, B, A.
    pub fn to_rgba8(self) -> (r: [u8; 4])
        ensures
            r@ == seq![self.r, self.g, self.b, self.a],
    {
        let r = [self.r, self.g, self.b, self.a];
        assert(r@ =~= seq![self.r, self.g, self.b, self.a]);
        r
    }
}

/// A block of RGBA pixels, row by row.
#[derive(Debug, Clone)]
pub struct Pixmap {
    pub width: u32,
    pub height: u32,
    /// `width * height * 4` bytes, in the order R G B A
    pub data: Vec<u8>,
}

/// The first byte of pixel (x, y).
pub open spec fn pixel_index(width: int, x: int, y: int) -> int {
    (y * width + x) * 4
}

/// The four bytes of the pixel starting at byte `i`.
pub open spec fn pixel_at(data: Seq<u8>, i: int) -> Seq<u8> {
    data.subrange(i, i + 4)
}

/// `data` with the pixel starting at byte `i` replaced by `px`.
pub open spec fn with_pixel(data: Seq<u8>, i: int, px: Seq<u8>) -> Seq<u8> {
    Seq::new(data.len(), |k: int| if i <= k < i + 4 { px[k - i] } else { data[k] })
}

/// `(2p + q) / 2q`: `p / q` rounded to the nearest integer, halves up.
pub open spec fn round_div(p: int, q: int) -> int {
    (2 * p + q) / (2 * q)
}

/// Source-over blending of `color`, painted with `coverage` (0..=255), onto
/// the pixel `px`, each channel rounded to the nearest byte:
/// with `sa = a·coverage/255²` and `da = A/255`, the new alpha is
/// `sa + da·(1 − sa)` and each new channel `(s·sa + d·da·(1 − sa)) / alpha`.
pub open spec fn blended(px: Seq<u8>, color: Color, coverage: int) -> Seq<u8> {
    let n = color.a * coverage;
    let d = px[3] as int;
    let q = 255 * n + d * (65025 - n);
    seq![
        round_div(255 * color.r * n + px[0] * d * (65025 - n), q) as u8,
        round_div(255 * color.g * n + px[1] * d * (65025 - n), q) as u8,
        round_div(255 * color.b * n + px[2] * d * (65025 - n), q) as u8,
        round_div(q, 65025) as u8,
    ]
}

/// The pixel data after blending `color` at (x, y) with `coverage`:
/// unchanged outside the canvas or when nothing would be painted.
pub open spec fn blend_at(data: Seq<u8>, width: int, height: int, x: int, y: int, color: Color, coverage: int) -> Seq<u8> {
    if 0 <= x < width && 0 <= y < height && color.a * coverage > 0 {
        let i = pixel_index(width, x, y);
        with_pixel(data, i, blended(pixel_at(data, i), color, coverage))
    } else {
        data
    }
}

/// Blending at every point of `points`, in order.
pub open spec fn blend_all(data: Seq<u8>, width: int, height: int, points: Seq<(int, int)>, color: Color, coverage: int) -> Seq<u8>
    decreases points.len(),
{
    if points.len() == 0 {
        data
    } else {
        let p = points.last();
        blend_at(blend_all(data, width, height, points.drop_last(), color, coverage), width, height, p.0, p.1, color, coverage)
    }
}

/// The alpha byte after erasing with `coverage`: `A·(1 − coverage/255)`,
/// rounded.
pub open spec fn erased_alpha(alpha: int, coverage: int) -> int {
    round_div(alpha * (255 - coverage), 255)
}

proof fn lemma_pixel_index_bound(width: int, height: int, x: int, y: int)
    requires
        0 <= x < width,
        0 <= y < height,
    ensures
        0 <= pixel_index(width, x, y),
        pixel_index(width, x, y) + 4 <= width * height * 4,
{
    assert(y * width + x < width * height) by (nonlinear_arith)
        requires
            0 <= x < width,
            0 <= y < height,
    ;
    assert(0 <= y * width) by (nonlinear_arith)
        requires
            0 <= x < width,
            0 <= y < height,
    ;
}

proof fn lemma_round_div_byte(p: int, q: int)
    requires
        0 <= p <= 255 * q,
        q > 0,
    ensures
        0 <= round_div(p, q) <= 255,
{
    assert((2 * p + q) / (2 * q) <= 255) by (nonlinear_arith)
        requires
            0 <= p <= 255 * q,
            q > 0,
    ;
    assert((2 * p + q) / (2 * q) >= 0) by (nonlinear_arith)
        requires
            0 <= p,
            q > 0,
    ;
}

/// One channel of a blend: `round(p / q)` with the numbers of [`blended`].
fn mix(s: u8, dc: u8, n: u64, d: u64) -> (r: u8)
    requires
        0 < n <= 65025,
        d < 256,
    ensures
        r == round_div(255 * s * n + dc * d * (65025 - n), 255 * n + d * (65025 - n)) as u8,
{
    assert(d * (65025 - n) <= 255 * 65025) by (nonlinear_arith)
        requires
            d < 256,
            n <= 65025,
    ;
    let q: u64 = 255 * n + d * (65025 - n);
    assert(255 * (s as u64) * n <= 255 * 255 * 65025) by (nonlinear_arith)
        requires
            s < 256,
            n <= 65025,
    ;
    assert((dc as u64) * d * (65025 - n) <= 255 * 255 * 65025) by (nonlinear_arith)
        requires
            dc < 256,
            d < 256,
            n <= 65025,
    ;
    assert((dc as u64) * d <= 65025) by (nonlinear_arith)
        requires
            dc < 256,
            d < 256,
    ;
    let p: u64 = 255 * (s as u64) * n + (dc as u64) * d * (65025 - n);
    assert(q > 0);
    assert(p <= 255 * q) by (nonlinear_arith)
        requires
            p == 255 * (s as u64) * n + (dc as u64) * d * (65025 - n),
            q == 255 * n + d * (65025 - n),
            s < 256,
            dc < 256,
            n <= 65025,
    ;
    proof {
        lemma_round_div_byte(p as int, q as int);
    }
    let r = (2 * p + q) / (2 * q);
    r as u8
}

impl Pixmap {
    /// The canvas invariant: at least one pixel each way, four bytes per
    /// pixel.
    pub open spec fn wf(&self) -> bool {
        &&& self.width >= 1
        &&& self.height >= 1
        &&& self.data.len() == self.width * self.height * 4
    }

    /// The four bytes of pixel (x, y).
    pub open spec fn pixel(&self, x: int, y: int) -> Seq<u8> {
        pixel_at(self.data@, pixel_index(self.width as int, x, y))
    }

    /// A fully transparent canvas; a zero size becomes one.
    pub fn new(width: u32, height: u32) -> (p: Pixmap)
        requires
            (if width == 0 { 1 } else { width as int }) * (if height == 0 { 1 } else { height as int })
                * 4 <= usize::MAX,
        ensures
            p.wf(),
            p.width == if width == 0 { 1 } else { width },
            p.height == if height == 0 { 1 } else { height },
            forall|i: int| 0 <= i < p.data.len() ==> p.data@[i] == 0,
    {
        let width = if width == 0 { 1 } else { width };
        let height = if height == 0 { 1 } else { height };
        let n: usize = (width as usize) * (height as usize) * 4;
        let mut data: Vec<u8> = Vec::new();
        while data.len() < n
            invariant
                data.len() <= n,
                forall|i: int| 0 <= i < data.len() ==> data@[i] == 0,
            decreases n - data.len(),
        {
            data.push(0);
        }
        Pixmap { width, height, data }
    }

    /// Paint every pixel with `color`.
    pub fn fill(&mut self, color: Color)
        requires
            old(self).wf(),
        ensures
            final(self).wf(),
            final(self).width == old(self).width,
            final(self).height == old(self).height,
            forall|i: int|
                0 <= i < final(self).data.len() ==> final(self).data@[i] == seq![color.r, color.g, color.b, color.a][i % 4],
    {
        let rgba = color.to_rgba8();
        let n = self.data.len();
        let mut i: usize = 0;
        while i < n
            invariant
                i <= n == self.data.len(),
                self.width == old(self).width,
                self.height == old(self).height,
                n == self.width * self.height * 4,
                rgba@ == seq![color.r, color.g, color.b, color.a],
                forall|k: int| 0 <= k < i ==> self.data@[k] == rgba@[k % 4],
            decreases n - i,
        {
            self.data.set(i, rgba[i % 4]);
            i = i + 1;
        }
    }

    /// The first byte of pixel (x, y) in `data`.
    pub fn index(&self, x: u32, y: u32) -> (i: usize)
        requires
            self.wf(),
            x < self.width,
            y < self.height,
        ensures
            i == pixel_index(self.width as int, x as int, y as int),
            i + 4 <= self.data.len(),
    {
        proof {
            lemma_pixel_index_bound(self.width as int, self.height as int, x as int, y as int);
        }
        ((y as usize) * (self.width as usize) + (x as usize)) * 4
    }

    /// The bytes of pixel (x, y); all zero outside the canvas.
    pub fn get(&self, x: u32, y: u32) -> (r: [u8; 4])
        requires
            self.wf(),
        ensures
            r@ == if x < self.width && y < self.height {
                self.pixel(x as int, y as int)
            } else {
                seq![0u8, 0u8, 0u8, 0u8]
            },
    {
        if x >= self.width || y >= self.height {
            let r = [0u8, 0u8, 0u8, 0u8];
            assert(r@ =~= seq![0u8, 0u8, 0u8, 0u8]);
            return r;
        }
        let index = self.index(x, y);
        let r = [self.data[index], self.data[index + 1], self.data[index + 2], self.data[index + 3]];
        assert(r@ =~= self.pixel(x as int, y as int));
        r
    }

    /// Blend `color` with `coverage` (0..=255) onto (x, y); nothing happens
    /// outside the canvas or when nothing would be painted.
    pub fn blend(&mut self, x: i64, y: i64, color: Color, coverage: u8)
        requires
            old(self).wf(),
        ensures
            final(self).wf(),
            final(self).width == old(self).width,
            final(self).height == old(self).height,
            final(self).data@ == blend_at(
                old(self).data@,
                old(self).width as int,
                old(self).height as int,
                x as int,
                y as int,
                color,
                coverage as int,
            ),
    {
        assert((color.a as u64) * (coverage as u64) <= 65025) by (nonlinear_arith)
            requires
                color.a < 256,
                coverage < 256,
        ;
        let n: u64 = (color.a as u64) * (coverage as u64);
        if n == 0 || x < 0 || y < 0 {
            return;
        }
        if x >= self.width as i64 || y >= self.height as i64 {
            return;
        }
        let index = self.index(x as u32, y as u32);
        let ghost before = self.data@;
        let ghost px = pixel_at(before, index as int);
        let d = self.data[index + 3] as u64;
        let r = mix(color.r, self.data[index], n, d);
        let g = mix(color.g, self.data[index + 1], n, d);
        let b = mix(color.b, self.data[index + 2], n, d);
        assert(d * (65025 - n) <= 255 * 65025) by (nonlinear_arith)
            requires
                d < 256,
                n <= 65025,
        ;
        let q: u64 = 255 * n + d * (65025 - n);
        let a = ((2 * q + 65025) / 130050) as u8;
        self.data.set(index, r);
        self.data.set(index + 1, g);
        self.data.set(index + 2, b);
        self.data.set(index + 3, a);
        assert(px[0] == before[index as int] && px[1] == before[index + 1] && px[2] == before[index + 2]
            && px[3] == before[index + 3]);
        assert(self.data@ =~= with_pixel(before, index as int, blended(px, color, coverage as int)));
    }

    /// Erase with `coverage` (0..=255): full coverage makes the pixel fully
    /// transparent, the knockout effect.
    pub fn erase(&mut self, x: i64, y: i64, coverage: u8)
        requires
            old(self).wf(),
        ensures
            final(self).wf(),
            final(self).width == old(self).width,
            final(self).height == old(self).height,
            if coverage > 0 && 0 <= x < old(self).width && 0 <= y < old(self).height {
                let i = pixel_index(old(self).width as int, x as int, y as int);
                final(self).data@ == old(self).data@.update(
                    i + 3,
                    erased_alpha(old(self).data@[i + 3] as int, coverage as int) as u8,
                )
            } else {
                final(self).data@ == old(self).data@
            },
    {
        if coverage == 0 || x < 0 || y < 0 {
            return;
        }
        if x >= self.width as i64 || y >= self.height as i64 {
            return;
        }
        let index = self.index(x as u32, y as u32);
        let alpha = self.data[index + 3] as u32;
        let keep = 255 - coverage as u32;
        assert(alpha * keep <= 65025) by (nonlinear_arith)
            requires
                alpha < 256,
                keep < 256,
        ;
        let out = (2 * (alpha * keep) + 255) / 510;
        self.data.set(index + 3, out as u8);
    }
}

/// The points of row `y` from column `x`, `w` of them, left to right.
pub open spec fn row_points(x: int, y: int, w: int) -> Seq<(int, int)> {
    Seq::new(if w > 0 { w as nat } else { 0 }, |i: int| (x + i, y))
}

/// The points of a `w` × `h` rectangle at (x, y), row by row.
pub open spec fn rect_points(x: int, y: int, w: int, h: int) -> Seq<(int, int)>
    decreases h,
{
    if h <= 0 {
        Seq::empty()
    } else {
        rect_points(x, y, w, h - 1) + row_points(x, y + h - 1, w)
    }
}

/// Whether position `p` along an edge is drawn: always for a solid line;
/// for a dash of `(solid, gap)`, the first `solid` of every period.
pub open spec fn dash_on(dash: Option<(i64, i64)>, p: int) -> bool {
    match dash {
        None => true,
        Some((solid, gap)) => {
            let period: int = if solid + gap > 1 { solid + gap } else { 1 };
            p % period < solid
        },
    }
}

/// The top and bottom edge points of one ring, column by column: the
/// first `n` columns from `x`.
pub open spec fn h_edges(x: int, top: int, bottom: int, dash: Option<(i64, i64)>, n: int) -> Seq<(int, int)>
    decreases n,
{
    if n <= 0 {
        Seq::empty()
    } else {
        h_edges(x, top, bottom, dash, n - 1) + if dash_on(dash, n - 1) {
            seq![(x + n - 1, top), (x + n - 1, bottom)]
        } else {
            Seq::empty()
        }
    }
}

/// The left and right edge points of one ring, row by row: the first `n`
/// rows from `y`.
pub open spec fn v_edges(y: int, left: int, right: int, dash: Option<(i64, i64)>, n: int) -> Seq<(int, int)>
    decreases n,
{
    if n <= 0 {
        Seq::empty()
    } else {
        v_edges(y, left, right, dash, n - 1) + if dash_on(dash, n - 1) {
            seq![(left, y + n - 1), (right, y + n - 1)]
        } else {
            Seq::empty()
        }
    }
}

/// The points a border of the first `m` rings paints, in drawing order:
/// ring `k` runs `k` pixels inside the rectangle's edge.
pub open spec fn border_points(x: int, y: int, w: int, h: int, dash: Option<(i64, i64)>, m: int) -> Seq<(int, int)>
    decreases m,
{
    if m <= 0 {
        Seq::empty()
    } else {
        let k = m - 1;
        border_points(x, y, w, h, dash, k) + h_edges(x, y + k, y + h - 1 - k, dash, w) + v_edges(
            y,
            x + k,
            x + w - 1 - k,
            dash,
            h,
        )
    }
}

proof fn lemma_blend_all_push(data: Seq<u8>, width: int, height: int, s: Seq<(int, int)>, p: (int, int), color: Color, coverage: int)
    ensures
        blend_all(data, width, height, s.push(p), color, coverage) == blend_at(
            blend_all(data, width, height, s, color, coverage),
            width,
            height,
            p.0,
            p.1,
            color,
            coverage,
        ),
{
    assert(s.push(p).drop_last() =~= s);
}

proof fn lemma_blend_all_len(data: Seq<u8>, width: int, height: int, s: Seq<(int, int)>, color: Color, coverage: int)
    ensures
        blend_all(data, width, height, s, color, coverage).len() == data.len(),
    decreases s.len(),
{
    if s.len() > 0 {
        lemma_blend_all_len(data, width, height, s.drop_last(), color, coverage);
    }
}

impl Pixmap {
    /// Blend `color` at full coverage at `a`, then at `b`.
    fn blend_pair(&mut self, a: (i64, i64), b: (i64, i64), color: Color)
        requires
            old(self).wf(),
        ensures
            final(self).wf(),
            final(self).width == old(self).width,
            final(self).height == old(self).height,
            final(self).data@ == blend_all(
                old(self).data@,
                old(self).width as int,
                old(self).height as int,
                seq![(a.0 as int, a.1 as int), (b.0 as int, b.1 as int)],
                color,
                255,
            ),
    {
        let ghost d0 = self.data@;
        self.blend(a.0, a.1, color, 255);
        self.blend(b.0, b.1, color, 255);
        proof {
            let pts = seq![(a.0 as int, a.1 as int), (b.0 as int, b.1 as int)];
            assert(pts.drop_last() =~= seq![(a.0 as int, a.1 as int)]);
            assert(seq![(a.0 as int, a.1 as int)].drop_last() =~= Seq::<(int, int)>::empty());
            reveal_with_fuel(blend_all, 3);
        }
    }

    /// Fill the `width` × `height` rectangle at (x, y) with `color`, row by
    /// row; the part outside the canvas is ignored.
    pub fn rect(&mut self, x: i64, y: i64, width: i64, height: i64, color: Color)
        requires
            old(self).wf(),
            i64::MIN <= x + width <= i64::MAX,
            i64::MIN <= y + height <= i64::MAX,
        ensures
            final(self).wf(),
            final(self).width == old(self).width,
            final(self).height == old(self).height,
            final(self).data@ == blend_all(
                old(self).data@,
                old(self).width as int,
                old(self).height as int,
                rect_points(x as int, y as int, width as int, height as int),
                color,
                255,
            ),
    {
        let ghost w = self.width as int;
        let ghost h = self.height as int;
        let ghost d0 = self.data@;
        let mut row = y;
        while row < y + height
            invariant
                self.wf(),
                self.width == old(self).width,
                self.height == old(self).height,
                w == self.width,
                h == self.height,
                d0 == old(self).data@,
                y <= row,
                height >= 0 ==> row <= y + height,
                height <= 0 ==> row == y,
                i64::MIN <= x + width <= i64::MAX,
                i64::MIN <= y + height <= i64::MAX,
                self.data@ == blend_all(d0, w, h, rect_points(x as int, y as int, width as int, row - y), color, 255),
            decreases y + height - row,
        {
            let ghost done = rect_points(x as int, y as int, width as int, row - y);
            let ghost line = row_points(x as int, row as int, width as int);
            assert(done + line.take(0) =~= done);
            let mut column = x;
            while column < x + width
                invariant
                    self.wf(),
                    self.width == old(self).width,
                    self.height == old(self).height,
                    w == self.width,
                    h == self.height,
                    x <= column,
                    width >= 0 ==> column <= x + width,
                    width <= 0 ==> column == x,
                    row < y + height,
                    i64::MIN <= x + width <= i64::MAX,
                    line == row_points(x as int, row as int, width as int),
                    self.data@ == blend_all(d0, w, h, done + line.take(column - x), color, 255),
                decreases x + width - column,
            {
                let ghost before = done + line.take(column - x);
                self.blend(column, row, color, 255);
                proof {
                    assert(line[column - x] == (column as int, row as int));
                    assert(done + line.take(column - x + 1) =~= before.push((column as int, row as int)));
                    lemma_blend_all_push(d0, w, h, before, (column as int, row as int), color, 255);
                }
                column = column + 1;
            }
            proof {
                if width > 0 {
                    assert(line.take(column - x) =~= line);
                } else {
                    assert(line.take(column - x) =~= line);
                }
                assert(rect_points(x as int, y as int, width as int, row - y + 1) == done + row_points(
                    x as int,
                    y + (row - y + 1) - 1,
                    width as int,
                ));
                assert(y + (row - y + 1) - 1 == row);
            }
            row = row + 1;
        }
        proof {
            if height <= 0 {
                assert(rect_points(x as int, y as int, width as int, row - y) =~= Seq::<(int, int)>::empty());
                assert(rect_points(x as int, y as int, width as int, height as int) =~= Seq::<(int, int)>::empty());
            }
        }
    }

    /// Outline the `width` × `height` rectangle at (x, y), `thickness`
    /// pixels deep (at least one); `dash` is `Some((solid, gap))` for a dashed
    /// line. Ring by ring, the top and bottom edges are drawn column by
    /// column, then the left and right edges row by row.
    pub fn border_rect(
        &mut self,
        x: i64,
        y: i64,
        width: i64,
        height: i64,
        thickness: i64,
        color: Color,
        dash: Option<(i64, i64)>,
    )
        requires
            old(self).wf(),
            i64::MIN + 1 + (if thickness < 1 { 1 } else { thickness }) <= x + width <= i64::MAX,
            i64::MIN + 1 + (if thickness < 1 { 1 } else { thickness }) <= y + height <= i64::MAX,
            x + (if thickness < 1 { 1 } else { thickness }) <= i64::MAX,
            y + (if thickness < 1 { 1 } else { thickness }) <= i64::MAX,
            match dash {
                Some((solid, gap)) => i64::MIN <= solid + gap <= i64::MAX,
                None => true,
            },
        ensures
            final(self).wf(),
            final(self).width == old(self).width,
            final(self).height == old(self).height,
            final(self).data@ == blend_all(
                old(self).data@,
                old(self).width as int,
                old(self).height as int,
                border_points(
                    x as int,
                    y as int,
                    width as int,
                    height as int,
                    dash,
                    if thickness < 1 { 1 } else { thickness as int },
                ),
                color,
                255,
            ),
    {
        let thickness = if thickness < 1 { 1 } else { thickness };
        let right = x + width;
        let bottom = y + height;
        let period: i64 = match dash {
            Some((solid, gap)) => if solid + gap > 1 { solid + gap } else { 1 },
            None => 1,
        };
        let ghost w = self.width as int;
        let ghost h = self.height as int;
        let ghost d0 = self.data@;
        let mut offset: i64 = 0;
        while offset < thickness
            invariant
                self.wf(),
                self.width == old(self).width,
                self.height == old(self).height,
                w == self.width,
                h == self.height,
                d0 == old(self).data@,
                0 <= offset <= thickness,
                thickness >= 1,
                right == x + width,
                bottom == y + height,
                i64::MIN + 1 + thickness <= right <= i64::MAX,
                i64::MIN + 1 + thickness <= bottom <= i64::MAX,
                x + thickness <= i64::MAX,
                y + thickness <= i64::MAX,
                period >= 1,
                dash matches Some((solid, gap)) ==> period == if solid + gap > 1 { solid + gap } else { 1 },
                self.data@ == blend_all(d0, w, h, border_points(x as int, y as int, width as int, height as int, dash, offset as int), color, 255),
            decreases thickness - offset,
        {
            let ghost base = border_points(x as int, y as int, width as int, height as int, dash, offset as int);
            let top_row = y + offset;
            let bottom_row = bottom - 1 - offset;
            let mut column = x;
            assert(h_edges(x as int, top_row as int, bottom_row as int, dash, 0) =~= Seq::<(int, int)>::empty());
            assert(base + Seq::<(int, int)>::empty() =~= base);
            while column < right
                invariant
                    self.wf(),
                    self.width == old(self).width,
                    self.height == old(self).height,
                    w == self.width,
                    h == self.height,
                    x <= column,
                    width >= 0 ==> column <= right,
                    width <= 0 ==> column == x,
                    right == x + width,
                    period >= 1,
                    dash matches Some((solid, gap)) ==> period == if solid + gap > 1 { solid + gap } else { 1 },
                    self.data@ == blend_all(d0, w, h, base + h_edges(x as int, top_row as int, bottom_row as int, dash, column - x), color, 255),
                decreases right - column,
            {
                let ghost before = base + h_edges(x as int, top_row as int, bottom_row as int, dash, column - x);
                let on = match dash {
                    None => true,
                    Some((solid, _)) => (column - x) % period < solid,
                };
                if on {
                    let ghost pair = seq![(column as int, top_row as int), (column as int, bottom_row as int)];
                    self.blend_pair((column, top_row), (column, bottom_row), color);
                    proof {
                        lemma_blend_all_append(d0, w, h, before, pair, color, 255);
                        assert(base + h_edges(x as int, top_row as int, bottom_row as int, dash, column - x + 1) =~= before + pair);
                    }
                } else {
                    assert(base + h_edges(x as int, top_row as int, bottom_row as int, dash, column - x + 1) =~= before);
                }
                column = column + 1;
            }
            let ghost with_h = base + h_edges(x as int, top_row as int, bottom_row as int, dash, width as int);
            proof {
                if width <= 0 {
                    assert(h_edges(x as int, top_row as int, bottom_row as int, dash, width as int) =~= Seq::<(int, int)>::empty());
                    assert(h_edges(x as int, top_row as int, bottom_row as int, dash, column - x) =~= Seq::<(int, int)>::empty());
                }
            }
            let left_col = x + offset;
            let right_col = right - 1 - offset;
            let mut row = y;
            assert(v_edges(y as int, left_col as int, right_col as int, dash, 0) =~= Seq::<(int, int)>::empty());
            assert(with_h + Seq::<(int, int)>::empty() =~= with_h);
            while row < bottom
                invariant
                    self.wf(),
                    self.width == old(self).width,
                    self.height == old(self).height,
                    w == self.width,
                    h == self.height,
                    y <= row,
                    height >= 0 ==> row <= bottom,
                    height <= 0 ==> row == y,
                    bottom == y + height,
                    period >= 1,
                    dash matches Some((solid, gap)) ==> period == if solid + gap > 1 { solid + gap } else { 1 },
                    self.data@ == blend_all(d0, w, h, with_h + v_edges(y as int, left_col as int, right_col as int, dash, row - y), color, 255),
                decreases bottom - row,
            {
                let ghost before = with_h + v_edges(y as int, left_col as int, right_col as int, dash, row - y);
                let on = match dash {
                    None => true,
                    Some((solid, _)) => (row - y) % period < solid,
                };
                if on {
                    let ghost pair = seq![(left_col as int, row as int), (right_col as int, row as int)];
                    self.blend_pair((left_col, row), (right_col, row), color);
                    proof {
                        lemma_blend_all_append(d0, w, h, before, pair, color, 255);
                        assert(with_h + v_edges(y as int, left_col as int, right_col as int, dash, row - y + 1) =~= before + pair);
                    }
                } else {
                    assert(with_h + v_edges(y as int, left_col as int, right_col as int, dash, row - y + 1) =~= before);
                }
                row = row + 1;
            }
            proof {
                if height <= 0 {
                    assert(v_edges(y as int, left_col as int, right_col as int, dash, height as int) =~= Seq::<(int, int)>::empty());
                    assert(v_edges(y as int, left_col as int, right_col as int, dash, row - y) =~= Seq::<(int, int)>::empty());
                }
                assert(border_points(x as int, y as int, width as int, height as int, dash, offset + 1)
                    == with_h + v_edges(y as int, left_col as int, right_col as int, dash, height as int));
            }
            offset = offset + 1;
        }
    }
}

/// Blending over `a` then `b` is blending over `a + b`.
pub proof fn lemma_blend_all_append(data: Seq<u8>, width: int, height: int, a: Seq<(int, int)>, b: Seq<(int, int)>, color: Color, coverage: int)
    ensures
        blend_all(data, width, height, a + b, color, coverage) == blend_all(
            blend_all(data, width, height, a, color, coverage),
            width,
            height,
            b,
            color,
            coverage,
        ),
    decreases b.len(),
{
    if b.len() == 0 {
        assert(a + b =~= a);
    } else {
        lemma_blend_all_append(data, width, height, a, b.drop_last(), color, coverage);
        assert((a + b).drop_last() =~= a + b.drop_last());
        assert((a + b).last() == b.last());
    }
}

/// Whether some point of `points` inside the canvas is the pixel that byte
/// `k` belongs to.
pub open spec fn painted(points: Seq<(int, int)>, width: int, height: int, k: int) -> bool {
    exists|j: int|
        0 <= j < points.len() && 0 <= points[j].0 < width && 0 <= points[j].1 < height && #[trigger] pixel_index(
            width,
            points[j].0,
            points[j].1,
        ) == k - k % 4
}

/// Painting an opaque colour at full coverage over any points leaves
/// exactly that colour on every pixel inside the canvas that was painted,
/// however often, and changes nothing else.
pub proof fn lemma_opaque_paint(data: Seq<u8>, width: int, height: int, points: Seq<(int, int)>, color: Color)
    requires
        color.a == 255,
        width >= 1,
        height >= 1,
        data.len() == width * height * 4,
    ensures
        blend_all(data, width, height, points, color, 255).len() == data.len(),
        forall|k: int|
            0 <= k < data.len() ==> #[trigger] blend_all(data, width, height, points, color, 255)[k] == if painted(
                points,
                width,
                height,
                k,
            ) {
                seq![color.r, color.g, color.b, 255u8][k % 4]
            } else {
                data[k]
            },
    decreases points.len(),
{
    lemma_blend_all_len(data, width, height, points, color, 255);
    if points.len() == 0 {
        assert forall|k: int| 0 <= k < data.len() implies !painted(points, width, height, k) by {}
    } else {
        let dl = points.drop_last();
        let p = points.last();
        lemma_opaque_paint(data, width, height, dl, color);
        let prev = blend_all(data, width, height, dl, color, 255);
        lemma_blend_all_len(data, width, height, dl, color, 255);
        let rgba = seq![color.r, color.g, color.b, 255u8];
        let inside = 0 <= p.0 < width && 0 <= p.1 < height;
        assert(color.a * 255 == 65025);
        assert forall|k: int| 0 <= k < data.len() implies #[trigger] blend_all(data, width, height, points, color, 255)[k]
            == if painted(points, width, height, k) { rgba[k % 4] } else { data[k] } by {
            let i = pixel_index(width, p.0, p.1);
            let here = inside && i == k - k % 4;
            assert(painted(points, width, height, k) == (painted(dl, width, height, k) || here)) by {
                if painted(dl, width, height, k) {
                    let j = choose|j: int|
                        0 <= j < dl.len() && 0 <= dl[j].0 < width && 0 <= dl[j].1 < height && #[trigger] pixel_index(
                            width,
                            dl[j].0,
                            dl[j].1,
                        ) == k - k % 4;
                    assert(points[j] == dl[j]);
                }
                if here {
                    assert(points[points.len() - 1] == p);
                }
                if painted(points, width, height, k) {
                    let j = choose|j: int|
                        0 <= j < points.len() && 0 <= points[j].0 < width && 0 <= points[j].1 < height && #[trigger] pixel_index(
                            width,
                            points[j].0,
                            points[j].1,
                        ) == k - k % 4;
                    if j < points.len() - 1 {
                        assert(dl[j] == points[j]);
                    }
                }
            }
            if inside {
                lemma_pixel_index_bound(width, height, p.0, p.1);
                let m = p.1 * width + p.0;
                assert(i == 4 * m);
                lemma_opaque_blend(pixel_at(prev, i), color);
                if i <= k < i + 4 {
                    vstd::arithmetic::div_mod::lemma_fundamental_div_mod_converse_mod(k, 4, m, k - i);
                    assert(k % 4 == k - i);
                    assert(here);
                } else {
                    assert(!here);
                }
            }
        }
    }
}

/// Full coverage with an opaque colour writes exactly that colour, whatever
/// was there before.
pub proof fn lemma_opaque_blend(px: Seq<u8>, color: Color)
    requires
        px.len() == 4,
        color.a == 255,
    ensures
        blended(px, color, 255) == seq![color.r, color.g, color.b, 255u8],
{
    let q: int = 16581375;
    assert(255 * 255 == 65025);
    assert(color.a * 255 == 65025);
    assert forall|s: int| 0 <= s < 256 implies #[trigger] round_div(255 * s * 65025 + 0, q) == s by {
        assert(2 * (255 * s * 65025) + 16581375 == s * 33162750 + 16581375);
        vstd::arithmetic::div_mod::lemma_fundamental_div_mod_converse_div(2 * (255 * s * 65025) + q, 2 * q, s, q);
    }
    let d = px[3] as int;
    assert(d * (65025 - 65025) == 0);
    assert(round_div(255 * color.r * 65025 + px[0] * d * (65025 - 65025), q) == color.r) by {
        assert(px[0] * d * 0 == 0) by (nonlinear_arith);
        assert(round_div(255 * color.r * 65025 + 0, q) == color.r);
    }
    assert(round_div(255 * color.g * 65025 + px[1] * d * (65025 - 65025), q) == color.g) by {
        assert(px[1] * d * 0 == 0) by (nonlinear_arith);
        assert(round_div(255 * color.g * 65025 + 0, q) == color.g);
    }
    assert(round_div(255 * color.b * 65025 + px[2] * d * (65025 - 65025), q) == color.b) by {
        assert(px[2] * d * 0 == 0) by (nonlinear_arith);
        assert(round_div(255 * color.b * 65025 + 0, q) == color.b);
    }
    vstd::arithmetic::div_mod::lemma_fundamental_div_mod_converse_div(33227775, 130050, 255, 65025);
    assert(round_div(q, 65025) == 255);
    assert(blended(px, color, 255) =~= seq![color.r, color.g, color.b, 255u8]);
}

/// Erasing at full coverage leaves no opacity at all.
pub proof fn lemma_full_erase(alpha: int)
    requires
        0 <= alpha <= 255,
    ensures
        erased_alpha(alpha, 255) == 0,
{
    assert(alpha * (255 - 255) == 0);
    vstd::arithmetic::div_mod::lemma_fundamental_div_mod_converse_div(255, 510, 0, 255);
    assert(round_div(0, 255) == 0);
}

/// Name for the bytes of the PNG file the `png` crate writes for an 8-bit
/// RGBA image of this size and these pixels.
pub uninterp spec fn png_file(width: u32, height: u32, rgba: Seq<u8>) -> Seq<u8>;

/// Which step of writing a PNG failed, with the encoder's message.
#[derive(Debug)]
pub enum PngFault {
    Header(String),
    Data(String),
}

/// `png::Encoder` with colour type RGBA and bit depth 8: `write_header`,
/// then `write_image_data`, into memory. Claims that a successful encoding
/// is the named file for these arguments; that `write_header` refuses
/// exactly a zero width or height (writing into a `Vec` cannot fail); and
/// that `write_image_data` accepts a buffer of `width * height * 4` bytes,
/// the one other check it makes on these settings. The encoder's messages
/// are passed on as they are.
#[verifier::external_body]
fn encode_png(width: u32, height: u32, rgba: &Vec<u8>) -> (r: Result<Vec<u8>, PngFault>)
    ensures
        r matches Ok(bytes) ==> bytes@ == png_file(width, height, rgba@),
        (r is Err && r->Err_0 is Header) <==> (width == 0 || height == 0),
        width >= 1 && height >= 1 && rgba@.len() == width * height * 4 ==> r is Ok,
{
    let mut out = Vec::new();
    let mut encoder = png::Encoder::new(&mut out, width, height);
    encoder.set_color(png::ColorType::Rgba);
    encoder.set_depth(png::BitDepth::Eight);
    let mut writer = match encoder.write_header() {
        Ok(writer) => writer,
        Err(e) => return Err(PngFault::Header(e.to_string())),
    };
    if let Err(e) = writer.write_image_data(rgba) {
        return Err(PngFault::Data(e.to_string()));
    }
    drop(writer);
    Ok(out)
}

impl Pixmap {
    /// Encode as a PNG file (for the `--render-png` self-check).
    pub fn to_png(&self) -> (r: Result<Vec<u8>, String>)
        ensures
            r matches Ok(bytes) ==> bytes@ == png_file(self.width, self.height, self.data@),
            self.wf() ==> r is Ok,
            self.width == 0 || self.height == 0 ==> (r matches Err(e) && exists|m: Seq<char>| e@ == "PNG 头写入失败："@ + m),
            r matches Err(e) ==> (exists|m: Seq<char>| e@ == "PNG 头写入失败："@ + m || e@ == "PNG 数据写入失败："@ + m),
    {
        match encode_png(self.width, self.height, &self.data) {
            Ok(bytes) => Ok(bytes),
            Err(PngFault::Header(m)) => {
                let mut msg = chars_of("PNG 头写入失败：");
                push_all(&mut msg, &chars_of(m.as_str()));
                assert(msg@ == "PNG 头写入失败："@ + m@);
                Err(string_of(&msg))
            },
            Err(PngFault::Data(m)) => {
                let mut msg = chars_of("PNG 数据写入失败：");
                push_all(&mut msg, &chars_of(m.as_str()));
                assert(msg@ == "PNG 数据写入失败："@ + m@);
                Err(string_of(&msg))
            },
        }
    }
}

} // verus!
