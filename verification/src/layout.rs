//! Row-major RGBA layout: where a channel of a pixel lives in a flat buffer.

use vstd::prelude::*;
use vstd::arithmetic::div_mod::lemma_fundamental_div_mod_converse;

verus! {

/// Number of bytes of one RGBA pixel.
pub const BYTES_PER_PIXEL: usize = 4;

/// Offset of channel `c` of pixel (`x`, `y`) in a buffer `width` pixels wide.
pub open spec fn byte_index(x: int, y: int, width: int, c: int) -> int {
    (y * width + x) * 4 + c
}

/// Column of the pixel that holds byte `i`.
pub open spec fn column_of(i: int, width: int) -> int {
    (i / 4) % width
}

/// Row of the pixel that holds byte `i`.
pub open spec fn row_of(i: int, width: int) -> int {
    (i / 4) / width
}

/// Channel that byte `i` holds.
pub open spec fn channel_of(i: int) -> int {
    i % 4
}

/// Every byte of a `width` x `height` buffer is a channel of exactly one pixel.
pub proof fn lemma_decompose(i: int, width: int, height: int)
    requires
        0 <= width,
        0 <= height,
        0 <= i < width * height * 4,
    ensures
        0 <= column_of(i, width) < width,
        0 <= row_of(i, width) < height,
        0 <= channel_of(i) < 4,
        i == byte_index(column_of(i, width), row_of(i, width), width, channel_of(i)),
{
    let p = i / 4;
    let c = i % 4;
    assert(i == 4 * p + c && 0 <= c < 4);
    let n = width * height;
    assert(0 <= p < n);
    assert(width > 0) by (nonlinear_arith)
        requires 0 <= p < width * height, 0 <= width, 0 <= height;
    let x = p % width;
    let y = p / width;
    assert(p == y * width + x && 0 <= x < width) by (nonlinear_arith)
        requires width > 0, x == p % width, y == p / width;
    assert(0 <= y < height) by (nonlinear_arith)
        requires p == y * width + x, 0 <= x < width, 0 <= p < width * height, width > 0;
}

/// The pixel coordinates and channel of a byte are recovered from its offset.
pub proof fn lemma_compose(x: int, y: int, width: int, height: int, c: int)
    requires
        0 <= x < width,
        0 <= y < height,
        0 <= c < 4,
    ensures
        0 <= byte_index(x, y, width, c) < width * height * 4,
        column_of(byte_index(x, y, width, c), width) == x,
        row_of(byte_index(x, y, width, c), width) == y,
        channel_of(byte_index(x, y, width, c)) == c,
{
    let p = y * width + x;
    let i = p * 4 + c;
    assert(0 <= p < width * height) by (nonlinear_arith)
        requires 0 <= x < width, 0 <= y < height, p == y * width + x;
    lemma_fundamental_div_mod_converse(i, 4, p, c);
    lemma_fundamental_div_mod_converse(p, width, y, x);
}

} // verus!
