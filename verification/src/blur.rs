//! The blur plugin: replaces each channel of each pixel by a mean of the
//! pixels within `radius` of it, weighted by their distance, `iterations`
//! times over.
//!
//! The weights are square roots, which this library does not compute: the
//! caller hands in the averaging as a function from the samples of one
//! channel to the new value. Everything else (which pixels are sampled, in
//! which order, when a pixel is kept, how passes chain) is here and proved.

use vstd::prelude::*;
use vstd::arithmetic::div_mod::lemma_fundamental_div_mod_converse;
use crate::layout::{byte_index, lemma_compose, lemma_decompose, BYTES_PER_PIXEL};

verus! {

/// One neighbour of a pixel in one channel: its value, and the square of its
/// distance from the pixel being blurred (its weight is the square root).
#[derive(Debug, Clone, Copy, PartialEq, Eq, Structural)]
pub struct Sample {
    pub value: u8,
    pub dist_sq: u128,
}

/// Squared distance between pixels (x, y) and (nx, ny).
pub open spec fn dist_sq(x: int, y: int, nx: int, ny: int) -> int {
    (nx - x) * (nx - x) + (ny - y) * (ny - y)
}

/// Whether (nx, ny) lies within `radius` of (x, y); a negative radius holds
/// no pixel at all. Comparing squared distances with the squared radius
/// decides, for radii below 2^26, exactly what comparing the `f64` square
/// root of the squared distance with the radius decides.
pub open spec fn in_disk(x: int, y: int, nx: int, ny: int, radius: int) -> bool {
    0 <= radius && dist_sq(x, y, nx, ny) <= radius * radius
}

/// The pixels among the first `n` in row-major order that lie within `radius`
/// of (x, y), as (pixel number, squared distance), in row-major order.
pub open spec fn disk_prefix(width: int, x: int, y: int, radius: int, n: nat) -> Seq<(int, int)>
    decreases n,
{
    if n == 0 {
        Seq::empty()
    } else {
        let prev = disk_prefix(width, x, y, radius, (n - 1) as nat);
        let p = n - 1;
        if in_disk(x, y, p % width, p / width, radius) {
            prev.push((p, dist_sq(x, y, p % width, p / width)))
        } else {
            prev
        }
    }
}

/// The pixels of the image within `radius` of (x, y), in row-major order.
pub open spec fn disk(width: int, height: int, x: int, y: int, radius: int) -> Seq<(int, int)> {
    disk_prefix(width, x, y, radius, (width * height) as nat)
}

/// Whether some pixel of `taps` is at a positive distance, so that the
/// weights do not all vanish.
pub open spec fn has_weight(taps: Seq<(int, int)>) -> bool {
    exists|k: int| 0 <= k < taps.len() && #[trigger] taps[k].1 > 0
}

/// The samples of channel `c` that blurring pixel (x, y) of `image` reads.
pub open spec fn channel_samples(
    image: Seq<u8>,
    width: int,
    height: int,
    x: int,
    y: int,
    radius: int,
    c: int,
) -> Seq<Sample> {
    disk(width, height, x, y, radius).map_values(
        |t: (int, int)| Sample { value: image[t.0 * 4 + c], dist_sq: t.1 as u128 },
    )
}

proof fn lemma_disk_prefix_skip(width: int, x: int, y: int, radius: int, n: nat, m: nat)
    requires
        n <= m,
        forall|p: int| n <= p < m ==> !#[trigger] in_disk(x, y, p % width, p / width, radius),
    ensures
        disk_prefix(width, x, y, radius, m) == disk_prefix(width, x, y, radius, n),
    decreases m - n,
{
    if n < m {
        lemma_disk_prefix_skip(width, x, y, radius, n, (m - 1) as nat);
        let p = m - 1;
        assert(!in_disk(x, y, p % width, p / width, radius));
    }
}

proof fn lemma_disk_prefix_len(width: int, x: int, y: int, radius: int, n: nat)
    ensures
        disk_prefix(width, x, y, radius, n).len() <= n,
        forall|k: int|
            0 <= k < disk_prefix(width, x, y, radius, n).len() ==> 0 <= #[trigger] disk_prefix(
                width,
                x,
                y,
                radius,
                n,
            )[k].0 < n,
    decreases n,
{
    if n > 0 {
        lemma_disk_prefix_len(width, x, y, radius, (n - 1) as nat);
    }
}

/// Row-major position `p` at or after (a, b): its row is past `a`, or it is
/// row `a` at column `b` or later.
proof fn lemma_lex_ge(p: int, a: int, b: int, width: int)
    requires
        width > 0,
        0 <= b <= width,
        p >= a * width + b,
    ensures
        p / width > a || (p / width == a && p % width >= b),
{
    let q = p / width;
    let r = p % width;
    assert(p == q * width + r && 0 <= r < width) by (nonlinear_arith)
        requires width > 0, q == p / width, r == p % width;
    assert(q > a || (q == a && r >= b)) by (nonlinear_arith)
        requires p == q * width + r, 0 <= r < width, 0 <= b <= width, p >= a * width + b, width > 0;
}

/// Row-major position `p` before (c, d): its row is before `c`, or it is row
/// `c` before column `d`.
proof fn lemma_lex_lt(p: int, c: int, d: int, width: int)
    requires
        width > 0,
        0 <= d <= width,
        p < c * width + d,
    ensures
        p / width < c || (p / width == c && p % width < d),
{
    let q = p / width;
    let r = p % width;
    assert(p == q * width + r && 0 <= r < width) by (nonlinear_arith)
        requires width > 0, q == p / width, r == p % width;
    assert(q < c || (q == c && r < d)) by (nonlinear_arith)
        requires p == q * width + r, 0 <= r < width, 0 <= d <= width, p < c * width + d, width > 0;
}

/// A pixel whose row or column is farther than `radius` from (x, y) is not in
/// the disk.
proof fn lemma_far_not_in_disk(x: int, y: int, nx: int, ny: int, radius: int)
    requires
        0 <= radius,
        nx < x - radius || nx > x + radius || ny < y - radius || ny > y + radius,
    ensures
        !in_disk(x, y, nx, ny, radius),
{
    assert(!in_disk(x, y, nx, ny, radius)) by (nonlinear_arith)
        requires
            0 <= radius,
            nx < x - radius || nx > x + radius || ny < y - radius || ny > y + radius;
}

/// The pixels within `radius` of (x, y), with their squared distances, in
/// row-major order.
fn disk_pixels(width: usize, height: usize, x: usize, y: usize, radius: u64) -> (taps: Vec<(usize, u128)>)
    requires
        x < width,
        y < height,
        width * height * 4 <= usize::MAX,
    ensures
        taps@.len() == disk(width as int, height as int, x as int, y as int, radius as int).len(),
        forall|k: int|
            0 <= k < taps@.len() ==> (#[trigger] taps@[k]).0 == disk(
                width as int,
                height as int,
                x as int,
                y as int,
                radius as int,
            )[k].0 && taps@[k].1 == disk(width as int, height as int, x as int, y as int, radius as int)[k].1,
{
    let ghost w = width as int;
    let ghost h = height as int;
    let ghost r = radius as int;
    let r128 = radius as u128;
    let y_lo: usize = if (y as u128) > r128 { y - (radius as usize) } else { 0 };
    let y_hi: usize = if r128 >= ((height - 1 - y) as u128) { height - 1 } else { y + (radius as usize) };
    let x_lo: usize = if (x as u128) > r128 { x - (radius as usize) } else { 0 };
    let x_hi: usize = if r128 >= ((width - 1 - x) as u128) { width - 1 } else { x + (radius as usize) };
    proof {
        assert(w <= w * h && h <= w * h) by (nonlinear_arith)
            requires 0 <= x < w, 0 <= y < h;
        assert forall|p: int| 0 <= p < y_lo * w implies !#[trigger] in_disk(x as int, y as int, p % w, p / w, r) by {
            lemma_lex_lt(p, y_lo as int, 0, w);
            lemma_far_not_in_disk(x as int, y as int, p % w, p / w, r);
        }
        lemma_disk_prefix_skip(w, x as int, y as int, r, 0, (y_lo * w) as nat);
    }
    let mut taps: Vec<(usize, u128)> = Vec::new();
    let mut ny = y_lo;
    while ny <= y_hi
        invariant
            w == width,
            h == height,
            r == radius,
            r128 == radius,
            x < width,
            y < height,
            width * height * 4 <= usize::MAX,
            w <= w * h,
            h <= w * h,
            y_lo <= ny <= y_hi + 1,
            y_hi < height,
            x_lo <= x <= x_hi < width,
            y_lo <= y <= y_hi,
            y_lo == 0 || y_lo == y - r,
            y_hi == h - 1 || y_hi == y + r,
            x_lo == 0 || x_lo == x - r,
            x_hi == w - 1 || x_hi == x + r,
            taps@.len() == disk_prefix(w, x as int, y as int, r, (ny * w) as nat).len(),
            forall|k: int|
                0 <= k < taps@.len() ==> (#[trigger] taps@[k]).0 == disk_prefix(
                    w,
                    x as int,
                    y as int,
                    r,
                    (ny * w) as nat,
                )[k].0 && taps@[k].1 == disk_prefix(w, x as int, y as int, r, (ny * w) as nat)[k].1,
        decreases y_hi + 1 - ny,
    {
        let ghost row = ny as int;
        proof {
            assert(row * w + w <= w * h) by (nonlinear_arith)
                requires row < h, 0 <= w;
            assert(0 <= row * w) by (nonlinear_arith)
                requires 0 <= row, 0 <= w;
            assert forall|p: int| row * w <= p < row * w + x_lo implies !#[trigger] in_disk(
                x as int,
                y as int,
                p % w,
                p / w,
                r,
            ) by {
                lemma_lex_ge(p, row, 0, w);
                lemma_lex_lt(p, row, x_lo as int, w);
                lemma_far_not_in_disk(x as int, y as int, p % w, p / w, r);
            }
            lemma_disk_prefix_skip(w, x as int, y as int, r, (row * w) as nat, (row * w + x_lo) as nat);
        }
        let row_base = ny * width;
        let mut nx = x_lo;
        while nx <= x_hi
            invariant
                w == width,
                h == height,
                r == radius,
                r128 == radius,
                x < width,
                y < height,
                width * height * 4 <= usize::MAX,
                row == ny,
                y_lo <= ny <= y_hi,
                y_hi < height,
                row_base == row * w,
                row * w + w <= w * h,
                x_lo <= nx <= x_hi + 1,
                x_lo <= x <= x_hi < width,
                y_lo == 0 || y_lo == y - r,
                y_hi == h - 1 || y_hi == y + r,
                x_lo == 0 || x_lo == x - r,
                x_hi == w - 1 || x_hi == x + r,
                taps@.len() == disk_prefix(w, x as int, y as int, r, (row * w + nx) as nat).len(),
                forall|k: int|
                    0 <= k < taps@.len() ==> (#[trigger] taps@[k]).0 == disk_prefix(
                        w,
                        x as int,
                        y as int,
                        r,
                        (row * w + nx) as nat,
                    )[k].0 && taps@[k].1 == disk_prefix(
                        w,
                        x as int,
                        y as int,
                        r,
                        (row * w + nx) as nat,
                    )[k].1,
            decreases x_hi + 1 - nx,
        {
            let dx: u128 = if nx >= x { (nx - x) as u128 } else { (x - nx) as u128 };
            let dy: u128 = if ny >= y { (ny - y) as u128 } else { (y - ny) as u128 };
            proof {
                assert(w * h * 4 <= 0x1_0000_0000_0000_0000);
                assert(w < 0x8000_0000_0000_0000 && h < 0x8000_0000_0000_0000) by (nonlinear_arith)
                    requires w * h * 4 <= 0x1_0000_0000_0000_0000, 0 <= y < h, 0 <= x < w;
                assert(dx * dx + dy * dy < 0x8000_0000_0000_0000_0000_0000_0000_0000) by (nonlinear_arith)
                    requires
                        dx < 0x8000_0000_0000_0000,
                        dy < 0x8000_0000_0000_0000;
                assert(r128 * r128 <= 0xffff_ffff_ffff_ffff * 0xffff_ffff_ffff_ffffu128) by (nonlinear_arith)
                    requires r128 <= 0xffff_ffff_ffff_ffffu128;
                assert(dx * dx + dy * dy == dist_sq(x as int, y as int, nx as int, ny as int)) by (nonlinear_arith)
                    requires
                        dx == (if nx >= x { nx - x } else { x - nx }),
                        dy == (if ny >= y { ny - y } else { y - ny });
            }
            let d: u128 = dx * dx + dy * dy;
            let p = row_base + nx;
            let ghost before = taps@;
            proof {
                lemma_fundamental_div_mod_converse(p as int, w, row, nx as int);
            }
            if d <= r128 * r128 {
                taps.push((p, d));
            }
            proof {
                let n = (row * w + nx) as nat;
                assert(disk_prefix(w, x as int, y as int, r, n + 1) == if in_disk(
                    x as int,
                    y as int,
                    nx as int,
                    ny as int,
                    r,
                ) {
                    disk_prefix(w, x as int, y as int, r, n).push((p as int, d as int))
                } else {
                    disk_prefix(w, x as int, y as int, r, n)
                });
                assert((row * w + (nx + 1)) as nat == n + 1);
            }
            nx = nx + 1;
        }
        proof {
            assert forall|p: int| row * w + x_hi + 1 <= p < (row + 1) * w implies !#[trigger] in_disk(
                x as int,
                y as int,
                p % w,
                p / w,
                r,
            ) by {
                lemma_lex_ge(p, row, x_hi + 1, w);
                lemma_lex_lt(p, row + 1, 0, w);
                lemma_far_not_in_disk(x as int, y as int, p % w, p / w, r);
            }
            assert((row + 1) * w == row * w + w) by (nonlinear_arith);
            lemma_disk_prefix_skip(w, x as int, y as int, r, (row * w + x_hi + 1) as nat, ((row + 1) * w) as nat);
        }
        ny = ny + 1;
    }
    proof {
        let end = (ny * w) as nat;
        assert(ny * w <= w * h) by (nonlinear_arith)
            requires ny <= h, 0 <= w;
        assert forall|p: int| end <= p < w * h implies !#[trigger] in_disk(x as int, y as int, p % w, p / w, r) by {
            lemma_lex_ge(p, ny as int, 0, w);
            if p / w < h {
            }
            lemma_lex_lt(p, h, 0, w);
            lemma_far_not_in_disk(x as int, y as int, p % w, p / w, r);
        }
        lemma_disk_prefix_skip(w, x as int, y as int, r, end, (w * h) as nat);
    }
    taps
}


/// Byte offset of pixel (x, y) in a buffer `width` pixels wide.
pub fn pixel_offset(x: usize, y: usize, width: usize) -> (offset: usize)
    requires
        (y * width + x) * BYTES_PER_PIXEL <= usize::MAX,
    ensures
        offset == byte_index(x as int, y as int, width as int, 0),
{
    proof {
        assert(0 <= y * width <= (y * width + x) * 4) by (nonlinear_arith)
            requires 0 <= y, 0 <= width, 0 <= x;
    }
    (y * width + x) * BYTES_PER_PIXEL
}

/// Channel `c` of pixel (x, y) of `after` is what one pass of the blur puts
/// there: the average of its samples in `before` when some of them weigh
/// anything, else the pixel's own value.
pub open spec fn pixel_blurred<F: Fn(&Vec<Sample>) -> u8>(
    before: Seq<u8>,
    after: Seq<u8>,
    width: int,
    height: int,
    radius: int,
    average: F,
    x: int,
    y: int,
    c: int,
) -> bool {
    let i = byte_index(x, y, width, c);
    if has_weight(disk(width, height, x, y, radius)) {
        exists|v: Vec<Sample>|
            v@ == channel_samples(before, width, height, x, y, radius, c) && #[trigger] call_ensures(
                average,
                (&v,),
                after[i],
            )
    } else {
        after[i] == before[i]
    }
}

/// `after` is one blur pass over `before`: every channel of every pixel is
/// computed from `before` alone.
pub open spec fn blurred_once<F: Fn(&Vec<Sample>) -> u8>(
    before: Seq<u8>,
    after: Seq<u8>,
    width: int,
    height: int,
    radius: int,
    average: F,
) -> bool {
    &&& after.len() == before.len()
    &&& forall|x: int, y: int, c: int|
        0 <= x < width && 0 <= y < height && 0 <= c < 4 ==> #[trigger] pixel_blurred(
            before,
            after,
            width,
            height,
            radius,
            average,
            x,
            y,
            c,
        )
}

proof fn lemma_pixel_blurred_frame<F: Fn(&Vec<Sample>) -> u8>(
    before: Seq<u8>,
    a1: Seq<u8>,
    a2: Seq<u8>,
    width: int,
    height: int,
    radius: int,
    average: F,
    x: int,
    y: int,
    c: int,
)
    requires
        pixel_blurred(before, a1, width, height, radius, average, x, y, c),
        a1[byte_index(x, y, width, c)] == a2[byte_index(x, y, width, c)],
    ensures
        pixel_blurred(before, a2, width, height, radius, average, x, y, c),
{
    if has_weight(disk(width, height, x, y, radius)) {
        let v = choose|v: Vec<Sample>|
            v@ == channel_samples(before, width, height, x, y, radius, c) && #[trigger] call_ensures(
                average,
                (&v,),
                a1[byte_index(x, y, width, c)],
            );
        assert(call_ensures(average, (&v,), a2[byte_index(x, y, width, c)]));
    }
}

/// Whether some tap lies at a positive distance.
fn any_weight(taps: &Vec<(usize, u128)>) -> (weighted: bool)
    ensures
        weighted == (exists|k: int| 0 <= k < taps@.len() && #[trigger] taps@[k].1 > 0),
{
    let mut k: usize = 0;
    while k < taps.len()
        invariant
            k <= taps@.len(),
            forall|j: int| 0 <= j < k ==> #[trigger] taps@[j].1 == 0,
        decreases taps@.len() - k,
    {
        if taps[k].1 > 0 {
            return true;
        }
        k = k + 1;
    }
    false
}

/// The samples of channel `c` that the taps read from `source`.
fn gather(
    source: &Vec<u8>,
    taps: &Vec<(usize, u128)>,
    c: usize,
    width: usize,
    height: usize,
    x: usize,
    y: usize,
    radius: u64,
) -> (samples: Vec<Sample>)
    requires
        c < 4,
        source@.len() >= width * height * 4,
        width * height * 4 <= usize::MAX,
        taps@.len() == disk(width as int, height as int, x as int, y as int, radius as int).len(),
        forall|k: int|
            0 <= k < taps@.len() ==> (#[trigger] taps@[k]).0 == disk(
                width as int,
                height as int,
                x as int,
                y as int,
                radius as int,
            )[k].0 && taps@[k].1 == disk(width as int, height as int, x as int, y as int, radius as int)[k].1,
    ensures
        samples@ == channel_samples(
            source@.take(width * height * 4),
            width as int,
            height as int,
            x as int,
            y as int,
            radius as int,
            c as int,
        ),
{
    let ghost d = disk(width as int, height as int, x as int, y as int, radius as int);
    let ghost target = channel_samples(
        source@.take(width * height * 4),
        width as int,
        height as int,
        x as int,
        y as int,
        radius as int,
        c as int,
    );
    proof {
        lemma_disk_prefix_len(width as int, x as int, y as int, radius as int, (width * height) as nat);
    }
    let mut samples: Vec<Sample> = Vec::new();
    let mut k: usize = 0;
    while k < taps.len()
        invariant
            c < 4,
            source@.len() >= width * height * 4,
            width * height * 4 <= usize::MAX,
            taps@.len() == d.len(),
            target.len() == d.len(),
            d == disk(width as int, height as int, x as int, y as int, radius as int),
            target == channel_samples(
                source@.take(width * height * 4),
                width as int,
                height as int,
                x as int,
                y as int,
                radius as int,
                c as int,
            ),
            forall|j: int| 0 <= j < d.len() ==> 0 <= #[trigger] d[j].0 < width * height,
            forall|j: int|
                0 <= j < taps@.len() ==> (#[trigger] taps@[j]).0 == d[j].0 && taps@[j].1 == d[j].1,
            k <= taps@.len(),
            samples@.len() == k,
            forall|j: int| 0 <= j < k ==> #[trigger] samples@[j] == target[j],
        decreases taps@.len() - k,
    {
        let pixel = taps[k].0;
        proof {
            assert(0 <= d[k as int].0 < width * height);
        }
        let value = source[pixel * BYTES_PER_PIXEL + c];
        proof {
            assert(source@.take(width * height * 4)[pixel * 4 + c] == value);
        }
        samples.push(Sample { value, dist_sq: taps[k].1 });
        k = k + 1;
    }
    assert(samples@ =~= target);
    samples
}

/// Computes one pixel's four channels of a blur pass from `source` into
/// `data`; the rest of `data` is left alone.
fn blur_pixel<F: Fn(&Vec<Sample>) -> u8>(
    source: &Vec<u8>,
    data: &mut [u8],
    width: usize,
    height: usize,
    x: usize,
    y: usize,
    radius: u64,
    average: &F,
)
    requires
        x < width,
        y < height,
        source@.len() >= width * height * 4,
        old(data)@.len() == source@.len(),
        forall|v: &Vec<Sample>| call_requires(*average, (v,)),
    ensures
        final(data)@.len() == old(data)@.len(),
        forall|c: int|
            0 <= c < 4 ==> #[trigger] pixel_blurred(
                source@.take(width * height * 4),
                final(data)@,
                width as int,
                height as int,
                radius as int,
                *average,
                x as int,
                y as int,
                c,
            ),
        forall|i: int|
            0 <= i < old(data)@.len() && !(byte_index(x as int, y as int, width as int, 0) <= i
                < byte_index(x as int, y as int, width as int, 0) + 4) ==> #[trigger] final(data)@[i]
                == old(data)@[i],
{
    let ghost w = width as int;
    let ghost h = height as int;
    let ghost r = radius as int;
    let len = source.len();
    proof {
        lemma_compose(x as int, y as int, w, h, 3);
        assert(width * height * 4 <= len);
    }
    let taps = disk_pixels(width, height, x, y, radius);
    let weighted = any_weight(&taps);
    let target = pixel_offset(x, y, width);
    let ghost orig = data@;
    proof {
        let d = disk(w, h, x as int, y as int, r);
        if weighted {
            let k = choose|k: int| 0 <= k < taps@.len() && #[trigger] taps@[k].1 > 0;
            assert(d[k].1 > 0);
        } else {
            assert forall|k: int| 0 <= k < d.len() implies !(#[trigger] d[k].1 > 0) by {
                assert(taps@[k].1 == d[k].1);
            }
        }
        assert(weighted == has_weight(d));
    }
    let mut c: usize = 0;
    while c < 4
        invariant
            c <= 4,
            x < width,
            y < height,
            w == width,
            h == height,
            r == radius,
            source@.len() >= width * height * 4,
            data@.len() == orig.len(),
            orig.len() == source@.len(),
            target == byte_index(x as int, y as int, w, 0),
            target + 4 <= width * height * 4,
            target + 4 <= orig.len(),
            forall|v: &Vec<Sample>| call_requires(*average, (v,)),
            weighted == has_weight(disk(w, h, x as int, y as int, r)),
            taps@.len() == disk(w, h, x as int, y as int, r).len(),
            forall|k: int|
                0 <= k < taps@.len() ==> (#[trigger] taps@[k]).0 == disk(w, h, x as int, y as int, r)[k].0
                    && taps@[k].1 == disk(w, h, x as int, y as int, r)[k].1,
            forall|cc: int|
                0 <= cc < c ==> #[trigger] pixel_blurred(
                    source@.take(width * height * 4),
                    data@,
                    w,
                    h,
                    r,
                    *average,
                    x as int,
                    y as int,
                    cc,
                ),
            forall|i: int|
                0 <= i < orig.len() && !(target <= i < target + c) ==> #[trigger] data@[i] == orig[i],
        decreases 4 - c,
    {
        let ghost prev = data@;
        if weighted {
            let samples = gather(source, &taps, c, width, height, x, y, radius);
            let value = average(&samples);
            data[target + c] = value;
            proof {
                assert(call_ensures(*average, (&samples,), data@[target + c]));
            }
        } else {
            data[target + c] = source[target + c];
            proof {
                assert(source@.take(width * height * 4)[target + c] == source@[target + c]);
            }
        }
        proof {
            assert forall|cc: int|
                0 <= cc < c + 1 implies #[trigger] pixel_blurred(
                    source@.take(width * height * 4),
                    data@,
                    w,
                    h,
                    r,
                    *average,
                    x as int,
                    y as int,
                    cc,
                ) by {
                if cc < c {
                    lemma_pixel_blurred_frame(source@.take(width * height * 4), prev, data@, w, h, r, *average, x as int, y as int, cc);
                }
            }
        }
        c = c + 1;
    }
}


/// Bytes of pixels that come earlier in row-major order lie before the
/// pixel's first byte.
proof fn lemma_earlier_pixel(xx: int, yy: int, x: int, y: int, width: int, c: int)
    requires
        0 <= xx < width,
        0 <= c < 4,
        0 <= x,
        yy < y || (yy == y && xx < x),
    ensures
        byte_index(xx, yy, width, c) < byte_index(x, y, width, 0),
{
    assert(yy * width + xx < y * width + x) by (nonlinear_arith)
        requires 0 <= xx < width, 0 <= x, yy < y || (yy == y && xx < x);
}

/// One pass of the blur over the image held in the first `width` x `height`
/// x 4 bytes, reading from a copy of it; the bytes past the image are kept.
fn blur_pass<F: Fn(&Vec<Sample>) -> u8>(
    data: &mut [u8],
    width: usize,
    height: usize,
    radius: u64,
    average: &F,
)
    requires
        old(data)@.len() >= width * height * 4,
        forall|v: &Vec<Sample>| call_requires(*average, (v,)),
    ensures
        final(data)@.len() == old(data)@.len(),
        blurred_once(
            old(data)@.take(width * height * 4),
            final(data)@.take(width * height * 4),
            width as int,
            height as int,
            radius as int,
            *average,
        ),
        forall|i: int|
            width * height * 4 <= i < old(data)@.len() ==> #[trigger] final(data)@[i] == old(data)@[i],
{
    let ghost w = width as int;
    let ghost h = height as int;
    let ghost r = radius as int;
    let ghost n = width * height * 4;
    let ghost orig = data@;
    let ghost before = data@.take(n);
    let source = vstd::slice::slice_to_vec(data);
    let mut y: usize = 0;
    while y < height
        invariant
            y <= height,
            w == width,
            h == height,
            r == radius,
            n == width * height * 4,
            source@ == orig,
            before == orig.take(n),
            orig.len() >= n,
            data@.len() == orig.len(),
            forall|v: &Vec<Sample>| call_requires(*average, (v,)),
            forall|xx: int, yy: int, c: int|
                0 <= xx < w && 0 <= yy < y && 0 <= c < 4 ==> #[trigger] pixel_blurred(
                    before,
                    data@,
                    w,
                    h,
                    r,
                    *average,
                    xx,
                    yy,
                    c,
                ),
            forall|i: int|
                byte_index(0, y as int, w, 0) <= i < orig.len() ==> #[trigger] data@[i] == orig[i],
        decreases height - y,
    {
        let mut x: usize = 0;
        while x < width
            invariant
                x <= width,
                y < height,
                w == width,
                h == height,
                r == radius,
                n == width * height * 4,
                source@ == orig,
                before == orig.take(n),
                orig.len() >= n,
                data@.len() == orig.len(),
                forall|v: &Vec<Sample>| call_requires(*average, (v,)),
                forall|xx: int, yy: int, c: int|
                    0 <= xx < w && 0 <= yy <= y && (yy < y || xx < x) && 0 <= c < 4
                        ==> #[trigger] pixel_blurred(before, data@, w, h, r, *average, xx, yy, c),
                forall|i: int|
                    byte_index(x as int, y as int, w, 0) <= i < orig.len() ==> #[trigger] data@[i]
                        == orig[i],
            decreases width - x,
        {
            let ghost prev = data@;
            blur_pixel(&source, data, width, height, x, y, radius, average);
            proof {
                assert forall|xx: int, yy: int, c: int|
                    0 <= xx < w && 0 <= yy <= y && (yy < y || xx < x + 1) && 0 <= c < 4 implies #[trigger] pixel_blurred(
                        before,
                        data@,
                        w,
                        h,
                        r,
                        *average,
                        xx,
                        yy,
                        c,
                    ) by {
                    if yy < y || xx < x {
                        lemma_earlier_pixel(xx, yy, x as int, y as int, w, c);
                        lemma_compose(xx, yy, w, h, c);
                        lemma_pixel_blurred_frame(before, prev, data@, w, h, r, *average, xx, yy, c);
                    }
                }
            }
            x = x + 1;
        }
        proof {
            assert(byte_index(w, y as int, w, 0) == byte_index(0, y + 1, w, 0)) by (nonlinear_arith);
        }
        y = y + 1;
    }
    proof {
        let after = data@.take(n);
        assert forall|xx: int, yy: int, c: int|
            0 <= xx < w && 0 <= yy < h && 0 <= c < 4 implies #[trigger] pixel_blurred(
                before,
                after,
                w,
                h,
                r,
                *average,
                xx,
                yy,
                c,
            ) by {
            lemma_compose(xx, yy, w, h, c);
            lemma_pixel_blurred_frame(before, data@, after, w, h, r, *average, xx, yy, c);
        }
        assert(byte_index(0, h, w, 0) == n) by (nonlinear_arith)
            requires n == w * h * 4;
    }
}

/// Step `k` of a chain of images is one blur pass.
pub open spec fn chain_step<F: Fn(&Vec<Sample>) -> u8>(
    passes: Seq<Seq<u8>>,
    k: int,
    width: int,
    height: int,
    radius: int,
    average: F,
) -> bool {
    blurred_once(passes[k], passes[k + 1], width, height, radius, average)
}

/// `passes` runs from `before` to `after` in `iterations` blur passes.
pub open spec fn is_blur_chain<F: Fn(&Vec<Sample>) -> u8>(
    passes: Seq<Seq<u8>>,
    before: Seq<u8>,
    after: Seq<u8>,
    width: int,
    height: int,
    radius: int,
    iterations: nat,
    average: F,
) -> bool {
    &&& passes.len() == iterations + 1
    &&& passes[0] == before
    &&& passes[iterations as int] == after
    &&& forall|k: int| 0 <= k < iterations ==> #[trigger] chain_step(passes, k, width, height, radius, average)
}

/// `after` is `before` blurred `iterations` times over.
pub open spec fn blurred<F: Fn(&Vec<Sample>) -> u8>(
    before: Seq<u8>,
    after: Seq<u8>,
    width: int,
    height: int,
    radius: int,
    iterations: nat,
    average: F,
) -> bool {
    exists|passes: Seq<Seq<u8>>| #[trigger]
        is_blur_chain(passes, before, after, width, height, radius, iterations, average)
}

/// With a negative radius no pixel is sampled, so blurring keeps the image.
proof fn lemma_negative_radius_blur_keeps<F: Fn(&Vec<Sample>) -> u8>(
    s: Seq<u8>,
    width: int,
    height: int,
    radius: int,
    iterations: nat,
    average: F,
)
    requires
        radius < 0,
    ensures
        blurred(s, s, width, height, radius, iterations, average),
{
    assert forall|x: int, y: int, c: int|
        0 <= x < width && 0 <= y < height && 0 <= c < 4 implies #[trigger] pixel_blurred(
            s,
            s,
            width,
            height,
            radius,
            average,
            x,
            y,
            c,
        ) by {
        lemma_disk_prefix_skip(width, x, y, radius, 0, (width * height) as nat);
    }
    let passes = Seq::new(iterations + 1, |k: int| s);
    assert forall|k: int| 0 <= k < iterations implies #[trigger] chain_step(
        passes,
        k,
        width,
        height,
        radius,
        average,
    ) by {
        assert(passes[k] == s && passes[k + 1] == s);
    }
    assert(is_blur_chain(passes, s, s, width, height, radius, iterations, average));
}

/// Blurs the image `iterations` times: each pass replaces every channel of
/// every pixel by `average` of the samples of the pixels within `radius` of it
/// in the image as it was before the pass, or keeps the pixel where no sample
/// weighs anything. The image is the first `width` x `height` x 4 bytes of
/// `data`; the bytes after it are kept. The radius is taken as a signed
/// machine integer, as `as isize` converts it; one that comes out negative
/// samples nothing.
pub fn blur_image<F: Fn(&Vec<Sample>) -> u8>(
    data: &mut [u8],
    width: usize,
    height: usize,
    radius: u64,
    iterations: u64,
    average: &F,
)
    requires
        old(data)@.len() >= width * height * 4,
        forall|v: &Vec<Sample>| call_requires(*average, (v,)),
    ensures
        final(data)@.len() == old(data)@.len(),
        blurred(
            old(data)@.take(width * height * 4),
            final(data)@.take(width * height * 4),
            width as int,
            height as int,
            (radius as isize) as int,
            iterations as nat,
            *average,
        ),
        forall|i: int|
            width * height * 4 <= i < old(data)@.len() ==> #[trigger] final(data)@[i] == old(data)@[i],
{
    let ghost w = width as int;
    let ghost h = height as int;
    let ghost n = width * height * 4;
    let ghost orig = data@;
    let signed: isize = #[verifier::truncate] (radius as isize);
    if signed < 0 {
        proof {
            lemma_negative_radius_blur_keeps(orig.take(n), w, h, signed as int, iterations as nat, *average);
        }
        return ;
    }
    let radius: u64 = signed as u64;
    let ghost r = radius as int;
    let ghost mut passes: Seq<Seq<u8>> = seq![data@.take(n)];
    let mut i: u64 = 0;
    while i < iterations
        invariant
            i <= iterations,
            w == width,
            h == height,
            r == radius,
            n == width * height * 4,
            data@.len() == orig.len(),
            orig.len() >= n,
            forall|j: int| n <= j < orig.len() ==> #[trigger] data@[j] == orig[j],
            forall|v: &Vec<Sample>| call_requires(*average, (v,)),
            passes.len() == i + 1,
            passes[0] == orig.take(n),
            passes[i as int] == data@.take(n),
            forall|k: int| 0 <= k < i ==> #[trigger] chain_step(passes, k, w, h, r, *average),
        decreases iterations - i,
    {
        let ghost prev = data@;
        blur_pass(data, width, height, radius, average);
        proof {
            let old_passes = passes;
            passes = passes.push(data@.take(n));
            assert forall|k: int| 0 <= k < i + 1 implies #[trigger] chain_step(passes, k, w, h, r, *average) by {
                if k < i {
                    assert(chain_step(old_passes, k, w, h, r, *average));
                    assert(passes[k] == old_passes[k] && passes[k + 1] == old_passes[k + 1]);
                } else {
                    assert(passes[k] == prev.take(n) && passes[k + 1] == data@.take(n));
                }
            }
            assert forall|j: int| n <= j < orig.len() implies #[trigger] data@[j] == orig[j] by {
                assert(prev[j] == orig[j]);
            }
        }
        i = i + 1;
    }
    proof {
        assert(is_blur_chain(passes, orig.take(n), data@.take(n), w, h, r, iterations as nat, *average));
    }
}

/// What the blur plugin does to an image for parameters `params`: blurs it
/// with the requested radius and number of passes, or leaves it as it is when
/// either is 0 or the text is not JSON.
pub open spec fn blur_outcome<F: Fn(&Vec<Sample>) -> u8>(
    before: Seq<u8>,
    after: Seq<u8>,
    width: int,
    height: int,
    params: Seq<char>,
    average: F,
) -> bool {
    match crate::params::blur_request(params) {
        Some(p) => if p.radius == 0 || p.iterations == 0 {
            after == before
        } else {
            blurred(before, after, width, height, (p.radius as isize) as int, p.iterations as nat, average)
        },
        None => after == before,
    }
}

/// Blurs the image in the first `width` x `height` x 4 bytes of `rgba_data`
/// as the JSON `params` ask: `radius` and `iterations`, each 0 when missing
/// or not an unsigned integer; nothing happens when either is 0 or the text
/// is not JSON. The bytes after the image are kept.
pub fn process_image<F: Fn(&Vec<Sample>) -> u8>(
    width: u32,
    height: u32,
    rgba_data: &mut [u8],
    params: &str,
    average: &F,
)
    requires
        old(rgba_data)@.len() >= width * height * 4,
        forall|v: &Vec<Sample>| call_requires(*average, (v,)),
    ensures
        final(rgba_data)@.len() == old(rgba_data)@.len(),
        blur_outcome(
            old(rgba_data)@.take(width * height * 4),
            final(rgba_data)@.take(width * height * 4),
            width as int,
            height as int,
            params@,
            *average,
        ),
        forall|i: int|
            width * height * 4 <= i < old(rgba_data)@.len() ==> #[trigger] final(rgba_data)@[i] == old(
                rgba_data,
            )@[i],
{
    let request = match crate::params::parse_blur_params(params) {
        Ok(p) => p,
        Err(_) => return ,
    };
    if request.radius == 0 || request.iterations == 0 {
        return ;
    }
    let w = width as usize;
    let h = height as usize;
    blur_image(rgba_data, w, h, request.radius, request.iterations, average);
}


proof fn lemma_disk_prefix_members(width: int, x: int, y: int, radius: int, n: nat)
    ensures
        forall|k: int|
            0 <= k < disk_prefix(width, x, y, radius, n).len() ==> {
                let t = #[trigger] disk_prefix(width, x, y, radius, n)[k];
                &&& 0 <= t.0 < n
                &&& in_disk(x, y, t.0 % width, t.0 / width, radius)
                &&& t.1 == dist_sq(x, y, t.0 % width, t.0 / width)
            },
        forall|k1: int, k2: int|
            0 <= k1 < k2 < disk_prefix(width, x, y, radius, n).len() ==> #[trigger] disk_prefix(
                width,
                x,
                y,
                radius,
                n,
            )[k1].0 < #[trigger] disk_prefix(width, x, y, radius, n)[k2].0,
        forall|p: int|
            0 <= p < n && #[trigger] in_disk(x, y, p % width, p / width, radius) ==> exists|k: int|
                0 <= k < disk_prefix(width, x, y, radius, n).len() && #[trigger] disk_prefix(
                    width,
                    x,
                    y,
                    radius,
                    n,
                )[k].0 == p,
    decreases n,
{
    if n > 0 {
        let m = (n - 1) as nat;
        lemma_disk_prefix_members(width, x, y, radius, m);
        let prev = disk_prefix(width, x, y, radius, m);
        let cur = disk_prefix(width, x, y, radius, n);
        assert forall|p: int|
            0 <= p < n && #[trigger] in_disk(x, y, p % width, p / width, radius) implies exists|k: int|
                0 <= k < cur.len() && #[trigger] cur[k].0 == p by {
            if p < m {
                let k = choose|k: int| 0 <= k < prev.len() && #[trigger] prev[k].0 == p;
                assert(cur[k] == prev[k]);
            } else {
                assert(cur[cur.len() - 1].0 == p);
            }
        }
    }
}

/// The samples of a pixel are exactly the pixels of the image within
/// `radius` of it, each once, in row-major order, each with its squared
/// distance.
pub proof fn lemma_disk_is_neighbourhood(width: nat, height: nat, x: int, y: int, radius: nat, p: int)
    ensures
        (exists|k: int|
            0 <= k < disk(width as int, height as int, x, y, radius as int).len() && #[trigger] disk(
                width as int,
                height as int,
                x,
                y,
                radius as int,
            )[k].0 == p) <==> (0 <= p < width * height && in_disk(
            x,
            y,
            p % (width as int),
            p / (width as int),
            radius as int,
        )),
        forall|k: int|
            0 <= k < disk(width as int, height as int, x, y, radius as int).len() ==> (#[trigger] disk(
                width as int,
                height as int,
                x,
                y,
                radius as int,
            )[k]).1 == dist_sq(
                x,
                y,
                disk(width as int, height as int, x, y, radius as int)[k].0 % (width as int),
                disk(width as int, height as int, x, y, radius as int)[k].0 / (width as int),
            ),
        forall|k1: int, k2: int|
            0 <= k1 < k2 < disk(width as int, height as int, x, y, radius as int).len() ==> #[trigger] disk(
                width as int,
                height as int,
                x,
                y,
                radius as int,
            )[k1].0 < #[trigger] disk(width as int, height as int, x, y, radius as int)[k2].0,
{
    lemma_disk_prefix_members(width as int, x, y, radius as int, (width * height) as nat);
    let d = disk(width as int, height as int, x, y, radius as int);
    if exists|k: int| 0 <= k < d.len() && #[trigger] d[k].0 == p {
        let k = choose|k: int| 0 <= k < d.len() && #[trigger] d[k].0 == p;
        assert(0 <= d[k].0 < width * height);
    }
    if 0 <= p < width * height && in_disk(x, y, p % (width as int), p / (width as int), radius as int) {
        assert(exists|k: int| 0 <= k < d.len() && #[trigger] d[k].0 == p);
    }
}

/// With radius 0 only the pixel itself is sampled, at distance 0, so nothing
/// weighs anything and a blur pass keeps the image.
pub proof fn lemma_zero_radius_pass_keeps_image<F: Fn(&Vec<Sample>) -> u8>(
    before: Seq<u8>,
    after: Seq<u8>,
    width: nat,
    height: nat,
    average: F,
)
    requires
        before.len() == width * height * 4,
        blurred_once(before, after, width as int, height as int, 0, average),
    ensures
        after == before,
{
    let w = width as int;
    let h = height as int;
    assert forall|i: int| 0 <= i < before.len() implies #[trigger] after[i] == before[i] by {
        lemma_decompose(i, w, h);
        let x = crate::layout::column_of(i, w);
        let y = crate::layout::row_of(i, w);
        let c = crate::layout::channel_of(i);
        assert(pixel_blurred(before, after, w, h, 0, average, x, y, c));
        lemma_disk_prefix_members(w, x, y, 0, (w * h) as nat);
        let d = disk(w, h, x, y, 0);
        assert forall|k: int| 0 <= k < d.len() implies !(#[trigger] d[k].1 > 0) by {
            let t = d[k];
            assert(t.1 == dist_sq(x, y, t.0 % w, t.0 / w));
            assert(in_disk(x, y, t.0 % w, t.0 / w, 0));
            assert(dist_sq(x, y, t.0 % w, t.0 / w) >= 0) by (nonlinear_arith);
        }
    }
    assert(after =~= before);
}

/// Any number of passes with radius 0 keeps the image.
pub proof fn lemma_zero_radius_blur_keeps_image<F: Fn(&Vec<Sample>) -> u8>(
    before: Seq<u8>,
    after: Seq<u8>,
    width: nat,
    height: nat,
    iterations: nat,
    average: F,
)
    requires
        before.len() == width * height * 4,
        blurred(before, after, width as int, height as int, 0, iterations, average),
    ensures
        after == before,
{
    let passes = choose|passes: Seq<Seq<u8>>| #[trigger]
        is_blur_chain(passes, before, after, width as int, height as int, 0, iterations, average);
    lemma_zero_radius_chain(passes, before, after, width, height, iterations, average, iterations as int);
}

proof fn lemma_zero_radius_chain<F: Fn(&Vec<Sample>) -> u8>(
    passes: Seq<Seq<u8>>,
    before: Seq<u8>,
    after: Seq<u8>,
    width: nat,
    height: nat,
    iterations: nat,
    average: F,
    k: int,
)
    requires
        0 <= k <= iterations,
        before.len() == width * height * 4,
        is_blur_chain(passes, before, after, width as int, height as int, 0, iterations, average),
    ensures
        passes[k] == before,
    decreases k,
{
    if k > 0 {
        lemma_zero_radius_chain(passes, before, after, width, height, iterations, average, k - 1);
        assert(chain_step(passes, k - 1, width as int, height as int, 0, average));
        lemma_zero_radius_pass_keeps_image(passes[k - 1], passes[k], width, height, average);
    }
}

/// Blurring `n` times and then `m` times is blurring `n + m` times.
pub proof fn lemma_blur_passes_compose<F: Fn(&Vec<Sample>) -> u8>(
    a: Seq<u8>,
    b: Seq<u8>,
    c: Seq<u8>,
    width: int,
    height: int,
    radius: int,
    n: nat,
    m: nat,
    average: F,
)
    requires
        blurred(a, b, width, height, radius, n, average),
        blurred(b, c, width, height, radius, m, average),
    ensures
        blurred(a, c, width, height, radius, n + m, average),
{
    let p1 = choose|passes: Seq<Seq<u8>>| #[trigger]
        is_blur_chain(passes, a, b, width, height, radius, n, average);
    let p2 = choose|passes: Seq<Seq<u8>>| #[trigger]
        is_blur_chain(passes, b, c, width, height, radius, m, average);
    let joined = p1 + p2.skip(1);
    assert forall|k: int| 0 <= k < n + m implies #[trigger] chain_step(joined, k, width, height, radius, average) by {
        if k < n {
            assert(chain_step(p1, k, width, height, radius, average));
            assert(joined[k] == p1[k] && joined[k + 1] == p1[k + 1]);
        } else {
            assert(chain_step(p2, k - n, width, height, radius, average));
            assert(joined[k] == p2[k - n] && joined[k + 1] == p2[k - n + 1]);
        }
    }
    assert(is_blur_chain(joined, a, c, width, height, radius, n + m, average));
}

/// An averaging function that answers view-equal samples alike.
pub open spec fn deterministic<F: Fn(&Vec<Sample>) -> u8>(average: F) -> bool {
    forall|v1: Vec<Sample>, v2: Vec<Sample>, o1: u8, o2: u8|
        v1@ == v2@ && #[trigger] call_ensures(average, (&v1,), o1) && #[trigger] call_ensures(
            average,
            (&v2,),
            o2,
        ) ==> o1 == o2
}

/// With an averaging function that answers alike on alike samples, a blur
/// pass is a function of the image: two passes over one image agree.
pub proof fn lemma_blur_pass_determined<F: Fn(&Vec<Sample>) -> u8>(
    before: Seq<u8>,
    after1: Seq<u8>,
    after2: Seq<u8>,
    width: nat,
    height: nat,
    radius: nat,
    average: F,
)
    requires
        before.len() == width * height * 4,
        deterministic(average),
        blurred_once(before, after1, width as int, height as int, radius as int, average),
        blurred_once(before, after2, width as int, height as int, radius as int, average),
    ensures
        after1 == after2,
{
    let w = width as int;
    let h = height as int;
    let r = radius as int;
    assert forall|i: int| 0 <= i < before.len() implies #[trigger] after1[i] == after2[i] by {
        lemma_decompose(i, w, h);
        let x = crate::layout::column_of(i, w);
        let y = crate::layout::row_of(i, w);
        let c = crate::layout::channel_of(i);
        assert(pixel_blurred(before, after1, w, h, r, average, x, y, c));
        assert(pixel_blurred(before, after2, w, h, r, average, x, y, c));
        if has_weight(disk(w, h, x, y, r)) {
            let samples = channel_samples(before, w, h, x, y, r, c);
            let v1 = choose|v: Vec<Sample>|
                v@ == samples && #[trigger] call_ensures(average, (&v,), after1[i]);
            let v2 = choose|v: Vec<Sample>|
                v@ == samples && #[trigger] call_ensures(average, (&v,), after2[i]);
            assert(call_ensures(average, (&v1,), after1[i]) && call_ensures(average, (&v2,), after2[i]));
        }
    }
    assert(after1 =~= after2);
}

/// With an averaging function that answers alike on alike samples, the
/// result of any number of passes is a function of the image.
pub proof fn lemma_blur_determined<F: Fn(&Vec<Sample>) -> u8>(
    before: Seq<u8>,
    after1: Seq<u8>,
    after2: Seq<u8>,
    width: nat,
    height: nat,
    radius: nat,
    iterations: nat,
    average: F,
)
    requires
        before.len() == width * height * 4,
        deterministic(average),
        blurred(before, after1, width as int, height as int, radius as int, iterations, average),
        blurred(before, after2, width as int, height as int, radius as int, iterations, average),
    ensures
        after1 == after2,
{
    let w = width as int;
    let h = height as int;
    let r = radius as int;
    let p1 = choose|passes: Seq<Seq<u8>>| #[trigger]
        is_blur_chain(passes, before, after1, w, h, r, iterations, average);
    let p2 = choose|passes: Seq<Seq<u8>>| #[trigger]
        is_blur_chain(passes, before, after2, w, h, r, iterations, average);
    lemma_chains_agree(p1, p2, before, after1, after2, width, height, radius, iterations, average, iterations as int);
}

proof fn lemma_chains_agree<F: Fn(&Vec<Sample>) -> u8>(
    p1: Seq<Seq<u8>>,
    p2: Seq<Seq<u8>>,
    before: Seq<u8>,
    after1: Seq<u8>,
    after2: Seq<u8>,
    width: nat,
    height: nat,
    radius: nat,
    iterations: nat,
    average: F,
    k: int,
)
    requires
        0 <= k <= iterations,
        before.len() == width * height * 4,
        deterministic(average),
        is_blur_chain(p1, before, after1, width as int, height as int, radius as int, iterations, average),
        is_blur_chain(p2, before, after2, width as int, height as int, radius as int, iterations, average),
    ensures
        p1[k] == p2[k],
        p1[k].len() == width * height * 4,
    decreases k,
{
    if k > 0 {
        lemma_chains_agree(p1, p2, before, after1, after2, width, height, radius, iterations, average, k - 1);
        assert(chain_step(p1, k - 1, width as int, height as int, radius as int, average));
        assert(chain_step(p2, k - 1, width as int, height as int, radius as int, average));
        lemma_blur_pass_determined(p1[k - 1], p1[k], p2[k], width, height, radius, average);
    }
}


/// A one-pixel image has no neighbour at a positive distance, so a blur pass
/// keeps it whatever the radius.
pub proof fn lemma_single_pixel_pass_keeps_image<F: Fn(&Vec<Sample>) -> u8>(
    before: Seq<u8>,
    after: Seq<u8>,
    radius: int,
    average: F,
)
    requires
        before.len() == 4,
        blurred_once(before, after, 1, 1, radius, average),
    ensures
        after == before,
{
    assert forall|i: int| 0 <= i < 4 implies #[trigger] after[i] == before[i] by {
        assert(pixel_blurred(before, after, 1, 1, radius, average, 0, 0, i));
        lemma_disk_prefix_members(1, 0, 0, radius, 1);
        let d = disk(1, 1, 0, 0, radius);
        assert forall|k: int| 0 <= k < d.len() implies !(#[trigger] d[k].1 > 0) by {
            assert(d[k].0 == 0);
        }
    }
    assert(after =~= before);
}

/// Zero passes leave the image as it is.
pub proof fn lemma_zero_passes_keep_image<F: Fn(&Vec<Sample>) -> u8>(
    before: Seq<u8>,
    after: Seq<u8>,
    width: int,
    height: int,
    radius: int,
    average: F,
)
    requires
        blurred(before, after, width, height, radius, 0, average),
    ensures
        after == before,
{
    let passes = choose|passes: Seq<Seq<u8>>| #[trigger]
        is_blur_chain(passes, before, after, width, height, radius, 0, average);
}


/// With an averaging function that answers alike on alike samples, the blur
/// plugin leaves the image exactly as `blur_image` does with the radius and
/// number of passes that its parameters ask for.
pub proof fn lemma_plugin_is_blur_image<F: Fn(&Vec<Sample>) -> u8>(
    before: Seq<u8>,
    by_plugin: Seq<u8>,
    by_blur_image: Seq<u8>,
    width: nat,
    height: nat,
    params: Seq<char>,
    average: F,
)
    requires
        before.len() == width * height * 4,
        deterministic(average),
        crate::params::blur_request(params) is Some,
        crate::params::blur_request(params)->0.radius != 0,
        crate::params::blur_request(params)->0.iterations != 0,
        blur_outcome(before, by_plugin, width as int, height as int, params, average),
        blurred(
            before,
            by_blur_image,
            width as int,
            height as int,
            (crate::params::blur_request(params)->0.radius as isize) as int,
            crate::params::blur_request(params)->0.iterations as nat,
            average,
        ),
    ensures
        by_plugin == by_blur_image,
{
    let p = crate::params::blur_request(params)->0;
    let r = (p.radius as isize) as int;
    if r < 0 {
        lemma_negative_radius_determined(before, by_plugin, width, height, r, p.iterations as nat, average);
        lemma_negative_radius_determined(before, by_blur_image, width, height, r, p.iterations as nat, average);
    } else {
        lemma_blur_determined(before, by_plugin, by_blur_image, width, height, r as nat, p.iterations as nat, average);
    }
}

/// With a negative radius every chain of passes keeps the image.
proof fn lemma_negative_radius_determined<F: Fn(&Vec<Sample>) -> u8>(
    before: Seq<u8>,
    after: Seq<u8>,
    width: nat,
    height: nat,
    radius: int,
    iterations: nat,
    average: F,
)
    requires
        radius < 0,
        before.len() == width * height * 4,
        blurred(before, after, width as int, height as int, radius, iterations, average),
    ensures
        after == before,
{
    let passes = choose|passes: Seq<Seq<u8>>| #[trigger]
        is_blur_chain(passes, before, after, width as int, height as int, radius, iterations, average);
    lemma_negative_radius_chain(passes, before, after, width, height, radius, iterations, average, iterations as int);
}

proof fn lemma_negative_radius_chain<F: Fn(&Vec<Sample>) -> u8>(
    passes: Seq<Seq<u8>>,
    before: Seq<u8>,
    after: Seq<u8>,
    width: nat,
    height: nat,
    radius: int,
    iterations: nat,
    average: F,
    k: int,
)
    requires
        radius < 0,
        0 <= k <= iterations,
        before.len() == width * height * 4,
        is_blur_chain(passes, before, after, width as int, height as int, radius, iterations, average),
    ensures
        passes[k] == before,
    decreases k,
{
    if k > 0 {
        lemma_negative_radius_chain(passes, before, after, width, height, radius, iterations, average, k - 1);
        assert(chain_step(passes, k - 1, width as int, height as int, radius, average));
        let s = passes[k - 1];
        let t = passes[k];
        let w = width as int;
        let h = height as int;
        assert forall|i: int| 0 <= i < s.len() implies #[trigger] t[i] == s[i] by {
            lemma_decompose(i, w, h);
            let x = crate::layout::column_of(i, w);
            let y = crate::layout::row_of(i, w);
            let c = crate::layout::channel_of(i);
            assert(pixel_blurred(s, t, w, h, radius, average, x, y, c));
            lemma_disk_prefix_skip(w, x, y, radius, 0, (w * h) as nat);
        }
        assert(t =~= s);
    }
}


/// Squared distances between pixels of an image that fits in memory fit in a
/// `u128`.
proof fn lemma_dist_fits(width: int, height: int, x: int, y: int, nx: int, ny: int)
    requires
        0 <= x < width,
        0 <= y < height,
        0 <= nx < width,
        0 <= ny < height,
        width * height * 4 <= usize::MAX,
    ensures
        0 <= (nx - x) * (nx - x) + (ny - y) * (ny - y) <= u128::MAX,
{
    assert(width * height * 4 <= 0x1_0000_0000_0000_0000);
    assert(width < 0x8000_0000_0000_0000 && height < 0x8000_0000_0000_0000) by (nonlinear_arith)
        requires width * height * 4 <= 0x1_0000_0000_0000_0000, 0 <= y < height, 0 <= x < width;
    assert(0 <= (nx - x) * (nx - x) + (ny - y) * (ny - y) < 0x8000_0000_0000_0000_0000_0000_0000_0000)
        by (nonlinear_arith)
        requires
            0 <= x < width,
            0 <= nx < width,
            0 <= y < height,
            0 <= ny < height,
            width < 0x8000_0000_0000_0000,
            height < 0x8000_0000_0000_0000;
}

/// Which pixels are sampled: pixel (nx, ny) of the image is among the
/// samples of pixel (x, y) exactly when (nx - x)^2 + (ny - y)^2 <= radius^2
/// (Euclidean distance, so diagonal neighbours count), and its sample
/// carries its value in channel `c` and that squared distance as weight.
pub proof fn lemma_sampled_exactly_within_radius(
    image: Seq<u8>,
    width: nat,
    height: nat,
    x: int,
    y: int,
    radius: int,
    c: int,
    nx: int,
    ny: int,
)
    requires
        0 <= x < width,
        0 <= y < height,
        0 <= nx < width,
        0 <= ny < height,
        width * height * 4 <= usize::MAX,
    ensures
        (exists|k: int|
            0 <= k < disk(width as int, height as int, x, y, radius).len() && (#[trigger] disk(
                width as int,
                height as int,
                x,
                y,
                radius,
            )[k]).0 == ny * width + nx) <==> (0 <= radius && (nx - x) * (nx - x) + (ny - y) * (ny - y)
            <= radius * radius),
        forall|k: int|
            0 <= k < disk(width as int, height as int, x, y, radius).len() && (#[trigger] disk(
                width as int,
                height as int,
                x,
                y,
                radius,
            )[k]).0 == ny * width + nx ==> channel_samples(image, width as int, height as int, x, y, radius, c)[k]
                == (Sample {
                value: image[(ny * width + nx) * 4 + c],
                dist_sq: ((nx - x) * (nx - x) + (ny - y) * (ny - y)) as u128,
            }) && ((nx - x) * (nx - x) + (ny - y) * (ny - y)) as u128 as int == (nx - x) * (nx - x) + (
            ny - y) * (ny - y),
{
    let w = width as int;
    let h = height as int;
    let p = ny * w + nx;
    assert(0 <= p < w * h) by (nonlinear_arith)
        requires 0 <= nx < w, 0 <= ny < h, p == ny * w + nx;
    lemma_fundamental_div_mod_converse(p, w, ny, nx);
    lemma_disk_prefix_members(w, x, y, radius, (w * h) as nat);
    lemma_dist_fits(w, h, x, y, nx, ny);
    let d = disk(w, h, x, y, radius);
    if 0 <= radius && (nx - x) * (nx - x) + (ny - y) * (ny - y) <= radius * radius {
        assert(in_disk(x, y, p % w, p / w, radius));
        assert(exists|k: int| 0 <= k < d.len() && (#[trigger] d[k]).0 == p);
    }
    if exists|k: int| 0 <= k < d.len() && (#[trigger] d[k]).0 == p {
        let k = choose|k: int| 0 <= k < d.len() && (#[trigger] d[k]).0 == p;
        assert(in_disk(x, y, d[k].0 % w, d[k].0 / w, radius));
    }
}

/// What the samples are: each comes from a pixel p of the image, with
/// nx = p % width and ny = p / width, such that
/// (nx - x)^2 + (ny - y)^2 <= radius^2; it carries that pixel's value in
/// channel `c` and that squared distance; and the pixels come in strictly
/// increasing row-major order, so none twice.
pub proof fn lemma_samples_in_row_major_order(
    image: Seq<u8>,
    width: nat,
    height: nat,
    x: int,
    y: int,
    radius: int,
    c: int,
)
    requires
        0 <= x < width,
        0 <= y < height,
        width * height * 4 <= usize::MAX,
    ensures
        channel_samples(image, width as int, height as int, x, y, radius, c).len() == disk(
            width as int,
            height as int,
            x,
            y,
            radius,
        ).len(),
        forall|k: int|
            0 <= k < disk(width as int, height as int, x, y, radius).len() ==> {
                let p = (#[trigger] disk(width as int, height as int, x, y, radius)[k]).0;
                let nx = p % (width as int);
                let ny = p / (width as int);
                let dd = (nx - x) * (nx - x) + (ny - y) * (ny - y);
                &&& 0 <= p < width * height
                &&& 0 <= nx < width && 0 <= ny < height && p == ny * width + nx
                &&& 0 <= radius && dd <= radius * radius
                &&& disk(width as int, height as int, x, y, radius)[k].1 == dd
                &&& channel_samples(image, width as int, height as int, x, y, radius, c)[k].value
                    == image[p * 4 + c]
                &&& channel_samples(image, width as int, height as int, x, y, radius, c)[k].dist_sq as int
                    == dd
            },
        forall|k1: int, k2: int|
            0 <= k1 < k2 < disk(width as int, height as int, x, y, radius).len() ==> (#[trigger] disk(
                width as int,
                height as int,
                x,
                y,
                radius,
            )[k1]).0 < (#[trigger] disk(width as int, height as int, x, y, radius)[k2]).0,
{
    let w = width as int;
    let h = height as int;
    lemma_disk_prefix_members(w, x, y, radius, (w * h) as nat);
    let d = disk(w, h, x, y, radius);
    assert forall|k: int| 0 <= k < d.len() implies {
        let p = (#[trigger] d[k]).0;
        let nx = p % w;
        let ny = p / w;
        let dd = (nx - x) * (nx - x) + (ny - y) * (ny - y);
        &&& 0 <= p < w * h
        &&& 0 <= nx < w && 0 <= ny < h && p == ny * w + nx
        &&& 0 <= radius && dd <= radius * radius
        &&& d[k].1 == dd
        &&& channel_samples(image, w, h, x, y, radius, c)[k].value == image[p * 4 + c]
        &&& channel_samples(image, w, h, x, y, radius, c)[k].dist_sq as int == dd
    } by {
        let p = d[k].0;
        assert(0 <= p < w * h);
        lemma_decompose(p * 4, w, h);
        assert((p * 4) / 4 == p);
        let nx = p % w;
        let ny = p / w;
        assert(p == ny * w + nx && 0 <= nx < w && 0 <= ny < h) by (nonlinear_arith)
            requires w > 0, 0 <= p < w * h, nx == p % w, ny == p / w;
        lemma_dist_fits(w, h, x, y, nx, ny);
    }
}


/// How one pass sets a byte: when every sample of pixel (x, y) is the pixel
/// itself, the byte is kept; when some sample is another pixel, the byte is
/// what the averaging returns for the pixel's samples.
pub proof fn lemma_blur_pixel_rule<F: Fn(&Vec<Sample>) -> u8>(
    before: Seq<u8>,
    after: Seq<u8>,
    width: nat,
    height: nat,
    radius: int,
    average: F,
    x: int,
    y: int,
    c: int,
)
    requires
        blurred_once(before, after, width as int, height as int, radius, average),
        0 <= x < width,
        0 <= y < height,
        0 <= c < 4,
        width * height * 4 <= usize::MAX,
    ensures
        (forall|k: int|
            0 <= k < disk(width as int, height as int, x, y, radius).len() ==> (#[trigger] disk(
                width as int,
                height as int,
                x,
                y,
                radius,
            )[k]).0 == y * width + x) ==> after[(y * width + x) * 4 + c] == before[(y * width + x) * 4
            + c],
        (exists|k: int|
            0 <= k < disk(width as int, height as int, x, y, radius).len() && (#[trigger] disk(
                width as int,
                height as int,
                x,
                y,
                radius,
            )[k]).0 != y * width + x) ==> exists|v: Vec<Sample>|
            v@ == channel_samples(before, width as int, height as int, x, y, radius, c)
                && #[trigger] call_ensures(average, (&v,), after[(y * width + x) * 4 + c]),
{
    let w = width as int;
    let h = height as int;
    let d = disk(w, h, x, y, radius);
    lemma_samples_in_row_major_order(before, width, height, x, y, radius, c);
    assert(pixel_blurred(before, after, w, h, radius, average, x, y, c));
    assert forall|k: int| 0 <= k < d.len() implies ((#[trigger] d[k]).1 > 0 <==> d[k].0 != y * w + x) by {
        let p = d[k].0;
        let nx = p % w;
        let ny = p / w;
        assert(p == ny * w + nx && 0 <= nx < w && 0 <= ny < h);
        assert(d[k].1 == (nx - x) * (nx - x) + (ny - y) * (ny - y));
        assert(((nx - x) * (nx - x) + (ny - y) * (ny - y) > 0) <==> (nx != x || ny != y)) by (nonlinear_arith);
        if nx != x || ny != y {
            assert(ny * w + nx != y * w + x) by (nonlinear_arith)
                requires 0 <= nx < w, 0 <= x < w, nx != x || ny != y;
        }
    }
}

} // verus!
