//! Pixel statistics and the padded canvas of the `fit` mode.

use crate::codec::Gray;
use vstd::prelude::*;

#[allow(unused_imports)]
use vstd::arithmetic::div_mod::{
    lemma_fundamental_div_mod, lemma_fundamental_div_mod_converse, lemma_mod_bound,
};

verus! {

// ---------------------------------------------------------------------------
// Background
// ---------------------------------------------------------------------------
/// Sum of the first `n` pixels of row `y`.
pub open spec fn row_sum(pixels: Seq<u8>, width: int, y: int, n: nat) -> int
    decreases n,
{
    if n == 0 {
        0
    } else {
        row_sum(pixels, width, y, (n - 1) as nat) + pixels[y * width + (n - 1)]
    }
}

/// Sum of the pixels of column `x` in the `n` rows below the topmost one.
pub open spec fn column_sum(pixels: Seq<u8>, width: int, x: int, n: nat) -> int
    decreases n,
{
    if n == 0 {
        0
    } else {
        column_sum(pixels, width, x, (n - 1) as nat) + pixels[n * width + x]
    }
}

/// Number of rows that are neither the topmost nor the lowest.
pub open spec fn inner_rows(height: int) -> nat {
    if height > 2 {
        (height - 2) as nat
    } else {
        0
    }
}

/// The colour of the background: the mean of the border, rounded down. The top
/// and bottom rows count whole, the columns without their ends. An image
/// without pixels is white.
pub open spec fn background(pixels: Seq<u8>, width: int, height: int) -> int {
    if width == 0 || height == 0 {
        255
    } else {
        let inner = inner_rows(height);
        let rows = row_sum(pixels, width, 0, width as nat) + row_sum(
            pixels,
            width,
            height - 1,
            width as nat,
        );
        let columns = column_sum(pixels, width, 0, inner) + column_sum(
            pixels,
            width,
            width - 1,
            inner,
        );
        (rows + columns) / (2 * width + 2 * inner)
    }
}

/// The pixel in row `y` and column `x` lies within the image.
proof fn lemma_pixel_index(width: int, height: int, x: int, y: int)
    requires
        0 <= x < width,
        0 <= y < height,
    ensures
        0 <= y * width,
        0 <= y * width + x < width * height,
{
    assert(0 <= y * width) by (nonlinear_arith)
        requires
            0 <= y,
            0 <= width,
    ;
    assert(y * width + x < width * height) by (nonlinear_arith)
        requires
            0 <= x < width,
            0 <= y,
            y + 1 <= height,
    ;
}

proof fn lemma_row_sum_between(pixels: Seq<u8>, width: int, y: int, n: nat, lo: int, hi: int)
    requires
        forall|i: int| 0 <= i < pixels.len() ==> lo <= #[trigger] pixels[i] <= hi,
        0 <= y * width,
        y * width + n <= pixels.len(),
    ensures
        lo * n <= row_sum(pixels, width, y, n) <= hi * n,
    decreases n,
{
    if n > 0 {
        lemma_row_sum_between(pixels, width, y, (n - 1) as nat, lo, hi);
        assert(lo * n == lo * (n - 1) + lo) by (nonlinear_arith);
        assert(hi * n == hi * (n - 1) + hi) by (nonlinear_arith);
    } else {
        assert(lo * n == 0 && hi * n == 0) by (nonlinear_arith)
            requires
                n == 0,
        ;
    }
}

proof fn lemma_column_sum_between(
    pixels: Seq<u8>,
    width: int,
    height: int,
    x: int,
    n: nat,
    lo: int,
    hi: int,
)
    requires
        forall|i: int| 0 <= i < pixels.len() ==> lo <= #[trigger] pixels[i] <= hi,
        pixels.len() == width * height,
        0 <= x < width,
        n < height,
    ensures
        lo * n <= column_sum(pixels, width, x, n) <= hi * n,
    decreases n,
{
    if n > 0 {
        lemma_column_sum_between(pixels, width, height, x, (n - 1) as nat, lo, hi);
        lemma_pixel_index(width, height, x, n as int);
        assert(lo * n == lo * (n - 1) + lo) by (nonlinear_arith);
        assert(hi * n == hi * (n - 1) + hi) by (nonlinear_arith);
    } else {
        assert(lo * n == 0 && hi * n == 0) by (nonlinear_arith)
            requires
                n == 0,
        ;
    }
}

/// The background lies between the darkest and the brightest pixel. So an image
/// of one colour has that colour as its background.
pub proof fn law_background_between(pixels: Seq<u8>, width: int, height: int, lo: u8, hi: u8)
    requires
        0 < width,
        0 < height,
        pixels.len() == width * height,
        forall|i: int| 0 <= i < pixels.len() ==> lo <= #[trigger] pixels[i] <= hi,
    ensures
        lo <= background(pixels, width, height) <= hi,
{
    let inner = inner_rows(height);
    let n = width as nat;
    let last = (height - 1) * width;
    lemma_pixel_index(width, height, 0, 0);
    lemma_pixel_index(width, height, width - 1, 0);
    lemma_pixel_index(width, height, 0, height - 1);
    lemma_pixel_index(width, height, width - 1, height - 1);
    assert(0 * width == 0) by (nonlinear_arith);
    lemma_row_sum_between(pixels, width, 0, n, lo as int, hi as int);
    lemma_row_sum_between(pixels, width, height - 1, n, lo as int, hi as int);
    lemma_column_sum_between(pixels, width, height, 0, inner, lo as int, hi as int);
    lemma_column_sum_between(pixels, width, height, width - 1, inner, lo as int, hi as int);
    let sum = row_sum(pixels, width, 0, n) + row_sum(pixels, width, height - 1, n) + (column_sum(
        pixels,
        width,
        0,
        inner,
    ) + column_sum(pixels, width, width - 1, inner));
    let count = 2 * width + 2 * inner;
    assert(lo * n + lo * n + (lo * inner + lo * inner) == lo * count) by (nonlinear_arith)
        requires
            count == 2 * width + 2 * inner,
            n == width,
    ;
    assert(hi * n + hi * n + (hi * inner + hi * inner) == hi * count) by (nonlinear_arith)
        requires
            count == 2 * width + 2 * inner,
            n == width,
    ;
    lemma_mean_between(sum, count, lo as int, hi as int);
}

proof fn lemma_mean_between(sum: int, count: int, lo: int, hi: int)
    by (nonlinear_arith)
    requires
        0 < count,
        lo * count <= sum <= hi * count,
    ensures
        lo <= sum / count <= hi,
{
}

/// The background is the mean of the border, rounded down: the sum of the whole
/// top and bottom rows and of the two outer columns between them, over the
/// number of pixels in them. Without pixels it is white.
///
/// `plus` adds a pixel to a sum.
pub proof fn law_background_is_border_mean(
    pixels: Seq<u8>,
    width: int,
    height: int,
    plus: spec_fn(int, u8) -> int,
)
    requires
        0 <= width,
        0 <= height,
        pixels.len() == width * height,
        forall|sum: int, pixel: u8| #[trigger] plus(sum, pixel) == sum + pixel,
    ensures
        width == 0 || height == 0 ==> background(pixels, width, height) == 255,
        width > 0 && height > 0 ==> ({
            let between = if height > 2 {
                height - 2
            } else {
                0
            };
            let top = pixels.subrange(0, width);
            let bottom = pixels.subrange((height - 1) * width, (height - 1) * width + width);
            let left = Seq::new(between as nat, |y: int| pixels[(y + 1) * width]);
            let right = Seq::new(between as nat, |y: int| pixels[(y + 1) * width + (width - 1)]);
            background(pixels, width, height) == (top.fold_left(0, plus) + bottom.fold_left(0, plus)
                + left.fold_left(0, plus) + right.fold_left(0, plus)) / (2 * width + 2 * between)
        }),
{
    if width > 0 && height > 0 {
        let between = inner_rows(height);
        let left = Seq::new(between, |y: int| pixels[(y + 1) * width]);
        let right = Seq::new(between, |y: int| pixels[(y + 1) * width + (width - 1)]);
        lemma_pixel_index(width, height, width - 1, 0);
        lemma_pixel_index(width, height, width - 1, height - 1);
        assert(0 * width == 0) by (nonlinear_arith);
        lemma_row_sum_is_fold(pixels, width, 0, width as nat, plus);
        lemma_row_sum_is_fold(pixels, width, height - 1, width as nat, plus);
        lemma_column_sum_is_fold(pixels, width, 0, left, plus);
        lemma_column_sum_is_fold(pixels, width, width - 1, right, plus);
    }
}

proof fn lemma_row_sum_is_fold(
    pixels: Seq<u8>,
    width: int,
    y: int,
    n: nat,
    plus: spec_fn(int, u8) -> int,
)
    requires
        0 <= y * width,
        y * width + n <= pixels.len(),
        forall|sum: int, pixel: u8| #[trigger] plus(sum, pixel) == sum + pixel,
    ensures
        row_sum(pixels, width, y, n) == pixels.subrange(y * width, y * width + n).fold_left(
            0,
            plus,
        ),
    decreases n,
{
    let row = pixels.subrange(y * width, y * width + n);
    if n > 0 {
        lemma_row_sum_is_fold(pixels, width, y, (n - 1) as nat, plus);
        assert(row.drop_last() =~= pixels.subrange(y * width, y * width + (n - 1)));
        assert(row.last() == pixels[y * width + (n - 1)]);
    }
}

proof fn lemma_column_sum_is_fold(
    pixels: Seq<u8>,
    width: int,
    x: int,
    column: Seq<u8>,
    plus: spec_fn(int, u8) -> int,
)
    requires
        forall|i: int| 0 <= i < column.len() ==> #[trigger] column[i] == pixels[(i + 1) * width + x],
        forall|sum: int, pixel: u8| #[trigger] plus(sum, pixel) == sum + pixel,
    ensures
        column_sum(pixels, width, x, column.len()) == column.fold_left(0, plus),
    decreases column.len(),
{
    if column.len() > 0 {
        let shorter = column.drop_last();
        assert forall|i: int| 0 <= i < shorter.len() implies #[trigger] shorter[i] == pixels[(i + 1)
            * width + x] by {
            assert(column[i] == shorter[i]);
        }
        lemma_column_sum_is_fold(pixels, width, x, shorter, plus);
        assert(column[column.len() - 1] == pixels[column.len() * width + x]);
    }
}

/// Only the border decides the background: whatever an image shows inside it, the
/// background is the same.
pub proof fn law_background_ignores_the_inside(p: Seq<u8>, q: Seq<u8>, width: int, height: int)
    requires
        0 < width,
        0 < height,
        p.len() == width * height,
        q.len() == width * height,
        forall|x: int, y: int|
            0 <= x < width && 0 <= y < height && (x == 0 || x == width - 1 || y == 0 || y == height
                - 1) ==> #[trigger] p[y * width + x] == q[y * width + x],
    ensures
        background(p, width, height) == background(q, width, height),
{
    lemma_row_sums_agree(p, q, width, height, 0, width as nat);
    lemma_row_sums_agree(p, q, width, height, height - 1, width as nat);
    lemma_column_sums_agree(p, q, width, height, 0, inner_rows(height));
    lemma_column_sums_agree(p, q, width, height, width - 1, inner_rows(height));
}

proof fn lemma_row_sums_agree(
    p: Seq<u8>,
    q: Seq<u8>,
    width: int,
    height: int,
    y: int,
    n: nat,
)
    requires
        n <= width,
        0 <= y < height,
        y == 0 || y == height - 1,
        forall|x: int, y: int|
            0 <= x < width && 0 <= y < height && (x == 0 || x == width - 1 || y == 0 || y == height
                - 1) ==> #[trigger] p[y * width + x] == q[y * width + x],
    ensures
        row_sum(p, width, y, n) == row_sum(q, width, y, n),
    decreases n,
{
    if n > 0 {
        lemma_row_sums_agree(p, q, width, height, y, (n - 1) as nat);
        assert(p[y * width + (n - 1)] == q[y * width + (n - 1)]);
    }
}

proof fn lemma_column_sums_agree(
    p: Seq<u8>,
    q: Seq<u8>,
    width: int,
    height: int,
    x: int,
    n: nat,
)
    requires
        n < height,
        0 <= x < width,
        x == 0 || x == width - 1,
        forall|x: int, y: int|
            0 <= x < width && 0 <= y < height && (x == 0 || x == width - 1 || y == 0 || y == height
                - 1) ==> #[trigger] p[y * width + x] == q[y * width + x],
    ensures
        column_sum(p, width, x, n) == column_sum(q, width, x, n),
    decreases n,
{
    if n > 0 {
        lemma_column_sums_agree(p, q, width, height, x, (n - 1) as nat);
        assert(p[n as int * width + x] == q[n as int * width + x]);
    }
}

/// Estimates the colour of the background from the border of an image.
pub fn estimate_background(gray: &Gray) -> (r: u8)
    requires
        gray.is_whole(),
    ensures
        r == background(gray.pixels@, gray.width as int, gray.height as int),
{
    let w: u32 = gray.width;
    let h: u32 = gray.height;
    if w == 0 || h == 0 {
        return 255;
    }
    let ghost pixels = gray.pixels@;
    let len: usize = gray.pixels.len();
    let width: usize = w as usize;
    let mut rows: u64 = 0;
    let mut bottom: u64 = 0;
    assert(0 * w == 0) by (nonlinear_arith);
    for x in 0..w
        invariant
            width == w,
            h > 0,
            len == gray.pixels@.len(),
            len == w * h,
            gray.pixels@ == pixels,
            rows == row_sum(pixels, w as int, 0, x as nat),
            bottom == row_sum(pixels, w as int, h - 1, x as nat),
            rows <= 255 * x,
            bottom <= 255 * x,
            0 * w == 0,
    {
        proof {
            lemma_pixel_index(w as int, h as int, x as int, 0);
            lemma_pixel_index(w as int, h as int, x as int, h - 1);
        }
        rows = rows + gray.pixels[x as usize] as u64;
        bottom = bottom + gray.pixels[(h - 1) as usize * width + x as usize] as u64;
    }
    let inner: u32 = if h > 2 {
        h - 2
    } else {
        0
    };
    let mut left: u64 = 0;
    let mut right: u64 = 0;
    for y in 0..inner
        invariant
            width == w,
            w > 0,
            inner == inner_rows(h as int),
            len == gray.pixels@.len(),
            len == w * h,
            gray.pixels@ == pixels,
            left == column_sum(pixels, w as int, 0, y as nat),
            right == column_sum(pixels, w as int, w - 1, y as nat),
            left <= 255 * y,
            right <= 255 * y,
    {
        proof {
            lemma_pixel_index(w as int, h as int, 0, y + 1);
            lemma_pixel_index(w as int, h as int, w - 1, y + 1);
        }
        left = left + gray.pixels[(y + 1) as usize * width] as u64;
        right = right + gray.pixels[(y + 1) as usize * width + (width - 1)] as u64;
    }
    let count: u64 = 2 * (w as u64) + 2 * (inner as u64);
    let mean: u64 = (rows + bottom + (left + right)) / count;
    proof {
        law_background_between(pixels, w as int, h as int, 0, 255);
    }
    mean as u8
}

// ---------------------------------------------------------------------------
// Sampling
// ---------------------------------------------------------------------------
/// Cheap image statistics used by the trainer's auto-configuration.
#[derive(Clone, Copy, Debug, PartialEq, Eq, Structural)]
pub struct ImageInfo {
    pub width: u32,
    pub height: u32,
    /// Number of pixels looked at.
    pub sampled: usize,
    /// Number of sampled pixels whose RGB channels differ noticeably.
    pub color: usize,
    /// Number of sampled pixels that differ from the estimated background.
    pub ink: usize,
}

/// Channels further apart than this make a pixel coloured.
pub const COLOR_SPREAD: u8 = 18;

/// Pixels further from the background than this are ink.
pub const INK_DISTANCE: u8 = 28;

/// About how many pixels of an image are looked at.
pub const SAMPLE_TARGET: usize = 8192;

/// Only every so many pixels are looked at.
pub open spec fn sample_stride(pixels: int) -> int {
    if pixels / SAMPLE_TARGET as int > 1 {
        pixels / SAMPLE_TARGET as int
    } else {
        1
    }
}

/// How many of the first `n` pixels are sampled and satisfy `hit`.
pub open spec fn sampled_hits(n: nat, stride: int, hit: spec_fn(int) -> bool) -> nat
    decreases n,
{
    if n == 0 {
        0
    } else {
        let before = sampled_hits((n - 1) as nat, stride, hit);
        if (n - 1) % stride == 0 && hit(n - 1) {
            before + 1
        } else {
            before
        }
    }
}

/// Distance between the strongest and the weakest channel.
pub open spec fn spread(rgb: [u8; 3]) -> int {
    let lo = if rgb[0] <= rgb[1] && rgb[0] <= rgb[2] {
        rgb[0]
    } else if rgb[1] <= rgb[2] {
        rgb[1]
    } else {
        rgb[2]
    };
    let hi = if rgb[0] >= rgb[1] && rgb[0] >= rgb[2] {
        rgb[0]
    } else if rgb[1] >= rgb[2] {
        rgb[1]
    } else {
        rgb[2]
    };
    hi - lo
}

/// Whether a pixel is coloured.
pub open spec fn is_color(rgb: [u8; 3]) -> bool {
    spread(rgb) > COLOR_SPREAD
}

/// Whether a pixel stands out from the background.
pub open spec fn is_ink(gray: u8, background: int) -> bool {
    gray - background > INK_DISTANCE || background - gray > INK_DISTANCE
}

/// The statistics of an image.
pub open spec fn info_of(rgb: Seq<[u8; 3]>, gray: Seq<u8>, width: u32, height: u32) -> (
    nat,
    nat,
    nat,
) {
    let n = gray.len();
    let stride = sample_stride(n as int);
    let bg = background(gray, width as int, height as int);
    (
        sampled_hits(n, stride, |i: int| true),
        sampled_hits(n, stride, |i: int| is_color(rgb[i])),
        sampled_hits(n, stride, |i: int| is_ink(gray[i], bg)),
    )
}

fn channel_spread(rgb: &[u8; 3]) -> (r: u8)
    ensures
        r == spread(*rgb),
{
    let mut lo: u8 = rgb[0];
    let mut hi: u8 = rgb[0];
    if rgb[1] < lo {
        lo = rgb[1];
    }
    if rgb[1] > hi {
        hi = rgb[1];
    }
    if rgb[2] < lo {
        lo = rgb[2];
    }
    if rgb[2] > hi {
        hi = rgb[2];
    }
    hi - lo
}

fn distance(a: u8, b: u8) -> (r: u8)
    ensures
        r == if a >= b {
            a - b
        } else {
            b - a
        },
{
    if a >= b {
        a - b
    } else {
        b - a
    }
}

/// Counts the coloured and the inked pixels of an image.
pub fn inspect_pixels(rgb: &[[u8; 3]], gray: &Gray) -> (r: ImageInfo)
    requires
        gray.is_whole(),
        rgb@.len() == gray.pixels@.len(),
    ensures
        r.width == gray.width,
        r.height == gray.height,
        (r.sampled as nat, r.color as nat, r.ink as nat) == info_of(
            rgb@,
            gray.pixels@,
            gray.width,
            gray.height,
        ),
{
    let bg = estimate_background(gray);
    let n: usize = gray.pixels.len();
    let mut stride: usize = n / SAMPLE_TARGET;
    if stride < 1 {
        stride = 1;
    }
    let ghost colored = |i: int| is_color(rgb@[i]);
    let ghost inked = |i: int| is_ink(gray.pixels@[i], bg as int);
    let mut sampled: usize = 0;
    let mut color: usize = 0;
    let mut ink: usize = 0;
    for i in 0..n
        invariant
            n == gray.pixels@.len(),
            n == rgb@.len(),
            stride > 0,
            sampled == sampled_hits(i as nat, stride as int, |i: int| true),
            color == sampled_hits(i as nat, stride as int, colored),
            ink == sampled_hits(i as nat, stride as int, inked),
            colored == (|i: int| is_color(rgb@[i])),
            inked == (|i: int| is_ink(gray.pixels@[i], bg as int)),
            sampled <= i,
            color <= i,
            ink <= i,
    {
        if i % stride == 0 {
            sampled = sampled + 1;
            if channel_spread(&rgb[i]) > COLOR_SPREAD {
                color = color + 1;
            }
            if distance(gray.pixels[i], bg) > INK_DISTANCE {
                ink = ink + 1;
            }
        }
    }
    ImageInfo { width: gray.width, height: gray.height, sampled, color, ink }
}

/// A sampled pixel is counted at most once: the counts of coloured and inked
/// pixels are fractions of the sample.
pub proof fn law_hits_are_sampled(n: nat, stride: int, hit: spec_fn(int) -> bool)
    requires
        stride > 0,
    ensures
        sampled_hits(n, stride, hit) <= sampled_hits(n, stride, |i: int| true) <= n,
    decreases n,
{
    if n > 0 {
        law_hits_are_sampled((n - 1) as nat, stride, hit);
    }
}

/// A count over the sample is the number of places at which it looks and finds
/// what it looks for: every pixel whose index is a multiple of the stride is
/// looked at, and no other.
pub proof fn law_hits_are_places(
    n: nat,
    stride: int,
    hit: spec_fn(int) -> bool,
    places: Set<int>,
)
    requires
        stride > 0,
        forall|i: int| #[trigger] places.contains(i) <==> 0 <= i < n && i % stride == 0 && hit(i),
    ensures
        places.finite(),
        sampled_hits(n, stride, hit) == places.len(),
    decreases n,
{
    if n == 0 {
        assert(places =~= Set::empty());
    } else {
        let rest = places.remove(n - 1);
        law_hits_are_places((n - 1) as nat, stride, hit, rest);
        if places.contains(n - 1) {
            assert(places =~= rest.insert(n - 1));
        } else {
            assert(places =~= rest);
        }
    }
}

/// What the statistics of an image count. Looked at is every pixel of an image of
/// fewer than 16384 pixels, and every `n / 8192`th of a larger one. A pixel is
/// coloured when two of its channels are more than 18 apart, and ink when its
/// brightness is more than 28 away from the background.
pub proof fn law_statistics_count_pixels(
    rgb: Seq<[u8; 3]>,
    gray: Seq<u8>,
    width: u32,
    height: u32,
    sampled: Set<int>,
    colored: Set<int>,
    inked: Set<int>,
)
    requires
        forall|i: int| #[trigger]
            sampled.contains(i) <==> 0 <= i < gray.len() && (gray.len() < 16384 || i % (
            gray.len() as int / 8192) == 0),
        forall|i: int| #[trigger]
            colored.contains(i) <==> sampled.contains(i) && exists|a: int, b: int|
                0 <= a < 3 && 0 <= b < 3 && #[trigger] rgb[i][a] - #[trigger] rgb[i][b] > 18,
        forall|i: int| #[trigger]
            inked.contains(i) <==> sampled.contains(i) && (gray[i] - background(
                gray,
                width as int,
                height as int,
            ) > 28 || background(gray, width as int, height as int) - gray[i] > 28),
    ensures
        info_of(rgb, gray, width, height) == (sampled.len(), colored.len(), inked.len()),
{
    let n = gray.len();
    let stride = sample_stride(n as int);
    let bg = background(gray, width as int, height as int);
    let any = |i: int| true;
    let color = |i: int| is_color(rgb[i]);
    let ink = |i: int| is_ink(gray[i], bg);
    assert forall|i: int| #[trigger] sampled.contains(i) <==> 0 <= i < n && i % stride == 0 && any(
        i,
    ) by {
        if n < 16384 {
            assert(stride == 1);
        }
    }
    law_hits_are_places(n, stride, any, sampled);
    assert forall|i: int| #[trigger]
        colored.contains(i) <==> 0 <= i < n && i % stride == 0 && color(i) by {
        lemma_is_color(rgb[i]);
        assert(sampled.contains(i) <==> 0 <= i < n && i % stride == 0);
    }
    law_hits_are_places(n, stride, color, colored);
    assert forall|i: int| #[trigger]
        inked.contains(i) <==> 0 <= i < n && i % stride == 0 && ink(i) by {
        assert(sampled.contains(i) <==> 0 <= i < n && i % stride == 0);
    }
    law_hits_are_places(n, stride, ink, inked);
}

/// A pixel is coloured when two of its channels are more than 18 apart.
proof fn lemma_is_color(rgb: [u8; 3])
    ensures
        is_color(rgb) <==> exists|a: int, b: int|
            0 <= a < 3 && 0 <= b < 3 && #[trigger] rgb[a] - #[trigger] rgb[b] > 18,
{
    if is_color(rgb) {
        let lo: int = if rgb[0] <= rgb[1] && rgb[0] <= rgb[2] {
            0
        } else if rgb[1] <= rgb[2] {
            1
        } else {
            2
        };
        let hi: int = if rgb[0] >= rgb[1] && rgb[0] >= rgb[2] {
            0
        } else if rgb[1] >= rgb[2] {
            1
        } else {
            2
        };
        assert(rgb[hi] - rgb[lo] > 18);
    }
    if exists|a: int, b: int|
        0 <= a < 3 && 0 <= b < 3 && #[trigger] rgb[a] - #[trigger] rgb[b] > 18 {
        let (a, b) = choose|a: int, b: int|
            0 <= a < 3 && 0 <= b < 3 && #[trigger] rgb[a] - #[trigger] rgb[b] > 18;
        assert(a == 0 || a == 1 || a == 2);
        assert(b == 0 || b == 1 || b == 2);
    }
}

// ---------------------------------------------------------------------------
// Fit
// ---------------------------------------------------------------------------
/// Free pixels before a picture of size `part` that is centred in `whole`.
pub open spec fn margin(whole: int, part: int) -> int {
    (whole - part) / 2
}

/// A canvas of the background colour with a picture in its centre.
pub open spec fn framed(
    bg: u8,
    width: int,
    height: int,
    picture: Seq<u8>,
    part_width: int,
    part_height: int,
) -> Seq<u8> {
    let left = margin(width, part_width);
    let top = margin(height, part_height);
    Seq::new(
        (width * height) as nat,
        |i: int|
            {
                let x = i % width;
                let y = i / width;
                if left <= x < left + part_width && top <= y < top + part_height {
                    picture[(y - top) * part_width + (x - left)]
                } else {
                    bg
                }
            },
    )
}

proof fn lemma_row_major(width: int, x: int, y: int)
    requires
        0 <= x < width,
    ensures
        (y * width + x) % width == x,
        (y * width + x) / width == y,
{
    lemma_fundamental_div_mod_converse(y * width + x, width, y, x);
}

/// Puts a picture into the centre of a canvas of the background colour.
pub fn frame(bg: u8, width: usize, height: usize, picture: &Gray) -> (r: Vec<u8>)
    requires
        picture.is_whole(),
        picture.width <= width,
        picture.height <= height,
        width * height <= usize::MAX,
    ensures
        r@ == framed(
            bg,
            width as int,
            height as int,
            picture.pixels@,
            picture.width as int,
            picture.height as int,
        ),
{
    let pw: usize = picture.width as usize;
    let ph: usize = picture.height as usize;
    let left: usize = (width - pw) / 2;
    let top: usize = (height - ph) / 2;
    let len: usize = picture.pixels.len();
    let ghost whole = framed(
        bg,
        width as int,
        height as int,
        picture.pixels@,
        pw as int,
        ph as int,
    );
    let mut out: Vec<u8> = Vec::new();
    assert(0 * width == 0) by (nonlinear_arith);
    for y in 0..height
        invariant
            len == picture.pixels@.len(),
            len == pw * ph,
            pw <= width,
            ph <= height,
            left == margin(width as int, pw as int),
            top == margin(height as int, ph as int),
            whole == framed(
                bg,
                width as int,
                height as int,
                picture.pixels@,
                pw as int,
                ph as int,
            ),
            out@.len() == y * width,
            y * width <= whole.len(),
            out@ == whole.take(y * width),
    {
        assert((y + 1) * width == y * width + width) by (nonlinear_arith);
        assert((y + 1) * width <= width * height && 0 <= y * width) by (nonlinear_arith)
            requires
                0 <= y < height,
                0 <= width,
        ;
        for x in 0..width
            invariant
                y < height,
                len == picture.pixels@.len(),
                len == pw * ph,
                pw <= width,
                ph <= height,
                left == margin(width as int, pw as int),
                top == margin(height as int, ph as int),
                whole == framed(
                    bg,
                    width as int,
                    height as int,
                    picture.pixels@,
                    pw as int,
                    ph as int,
                ),
                0 <= y * width,
                (y + 1) * width == y * width + width,
                (y + 1) * width <= whole.len(),
                out@.len() == y * width + x,
                out@ == whole.take(y * width + x),
        {
            proof {
                lemma_row_major(width as int, x as int, y as int);
            }
            if left <= x && x < left + pw && top <= y && y < top + ph {
                proof {
                    lemma_pixel_index(pw as int, ph as int, x - left, y - top);
                }
                out.push(picture.pixels[(y - top) * pw + (x - left)]);
            } else {
                out.push(bg);
            }
            assert(out@.last() == whole[y * width + x]);
            assert(out@ =~= whole.take(y * width + x + 1));
        }
    }
    assert(height * width == width * height) by (nonlinear_arith);
    assert(whole.take(width * height) =~= whole);
    out
}

/// Framing loses nothing of the picture: each of its pixels stands on the
/// canvas, at its place moved by the margins, and all others have the
/// background colour. The margins of two opposite sides differ by one pixel at
/// most.
pub proof fn law_frame_keeps_picture(
    bg: u8,
    width: int,
    height: int,
    picture: Seq<u8>,
    part_width: int,
    part_height: int,
    x: int,
    y: int,
)
    requires
        0 <= part_width <= width,
        0 <= part_height <= height,
        picture.len() == part_width * part_height,
        0 <= x < width,
        0 <= y < height,
    ensures
        ({
            let left = margin(width, part_width);
            let top = margin(height, part_height);
            let canvas = framed(bg, width, height, picture, part_width, part_height);
            &&& canvas.len() == width * height
            &&& 0 <= width - part_width - 2 * left <= 1
            &&& 0 <= height - part_height - 2 * top <= 1
            &&& x < part_width && y < part_height ==> canvas[(y + top) * width + (x + left)]
                == picture[y * part_width + x]
            &&& !(left <= x < left + part_width && top <= y < top + part_height)
                ==> canvas[y * width + x] == bg
        }),
{
    let left = margin(width, part_width);
    let top = margin(height, part_height);
    lemma_pixel_index(width, height, x, y);
    lemma_row_major(width, x, y);
    if x < part_width && y < part_height {
        lemma_pixel_index(width, height, x + left, y + top);
        lemma_row_major(width, x + left, y + top);
    }
}

/// What stands at one place of a framed canvas.
pub proof fn lemma_place_in_frame(
    bg: u8,
    width: int,
    height: int,
    picture: Seq<u8>,
    part_width: int,
    part_height: int,
    x: int,
    y: int,
)
    requires
        0 <= x < width,
        0 <= y < height,
    ensures
        ({
            let left = (width - part_width) / 2;
            let top = (height - part_height) / 2;
            let canvas = framed(bg, width, height, picture, part_width, part_height);
            &&& canvas.len() == width * height
            &&& canvas[y * width + x] == if left <= x < left + part_width && top <= y < top
                + part_height {
                picture[(y - top) * part_width + (x - left)]
            } else {
                bg
            }
        }),
{
    lemma_pixel_index(width, height, x, y);
    lemma_row_major(width, x, y);
}

/// A picture that fills the canvas is the canvas.
pub proof fn law_full_size_picture_is_canvas(bg: u8, width: int, height: int, picture: Seq<u8>)
    requires
        0 < width,
        0 < height,
        picture.len() == width * height,
    ensures
        framed(bg, width, height, picture, width, height) == picture,
{
    let canvas = framed(bg, width, height, picture, width, height);
    assert forall|i: int| 0 <= i < width * height implies canvas[i] == picture[i] by {
        let x = i % width;
        let y = i / width;
        lemma_fundamental_div_mod(i, width);
        lemma_mod_bound(i, width);
        assert(width * y == y * width) by (nonlinear_arith);
        assert(0 <= y < height) by (nonlinear_arith)
            requires
                i == width * y + x,
                0 <= x < width,
                0 <= i < width * height,
        ;
    }
    assert(canvas =~= picture);
}

} // verus!
