//! The mirror plugin: flips an RGBA image left-right and/or top-bottom.

use vstd::prelude::*;
use crate::layout::{byte_index, column_of, row_of, channel_of, lemma_decompose, lemma_compose, BYTES_PER_PIXEL};

verus! {

/// The image flipped left-right: pixel (x, y) takes the value of pixel
/// (width - 1 - x, y). Bytes past the image are kept.
pub open spec fn mirrored_horizontally(s: Seq<u8>, width: int, height: int) -> Seq<u8> {
    Seq::new(
        s.len(),
        |i: int|
            if i < width * height * 4 {
                s[byte_index(width - 1 - column_of(i, width), row_of(i, width), width, channel_of(i))]
            } else {
                s[i]
            },
    )
}

/// The image flipped top-bottom: pixel (x, y) takes the value of pixel
/// (x, height - 1 - y). Bytes past the image are kept.
pub open spec fn mirrored_vertically(s: Seq<u8>, width: int, height: int) -> Seq<u8> {
    Seq::new(
        s.len(),
        |i: int|
            if i < width * height * 4 {
                s[byte_index(column_of(i, width), height - 1 - row_of(i, width), width, channel_of(i))]
            } else {
                s[i]
            },
    )
}

/// Offset of byte `k` of row `y` when rows are `row_size` bytes long.
pub open spec fn row_offset(y: int, row_size: int, k: int) -> int {
    y * row_size + k
}

/// `after` is `before` with its first `height` rows of `row_size` bytes in
/// reverse order; bytes past them are kept.
pub open spec fn rows_reversed(before: Seq<u8>, after: Seq<u8>, height: int, row_size: int) -> bool {
    &&& after.len() == before.len()
    &&& forall|y: int, k: int|
        0 <= y < height && 0 <= k < row_size ==> #[trigger] after[row_offset(y, row_size, k)]
            == before[row_offset(height - 1 - y, row_size, k)]
    &&& forall|i: int| height * row_size <= i < before.len() ==> #[trigger] after[i] == before[i]
}

/// The buffer that the mirror plugin leaves for parameters `params`.
pub open spec fn mirror_result(s: Seq<u8>, width: int, height: int, params: Seq<char>) -> Seq<u8> {
    match crate::params::mirror_request(params) {
        Some(p) => {
            let flipped = if p.horizontal {
                mirrored_horizontally(s, width, height)
            } else {
                s
            };
            if p.vertical {
                mirrored_vertically(flipped, width, height)
            } else {
                flipped
            }
        },
        None => s,
    }
}

/// Exchanges `data[a..a + n]` with `data[b..b + n]`.
fn swap_ranges(data: &mut [u8], a: usize, b: usize, n: usize)
    requires
        a + n <= b,
        b + n <= old(data)@.len(),
    ensures
        final(data)@.len() == old(data)@.len(),
        forall|k: int| 0 <= k < n ==> #[trigger] final(data)@[a + k] == old(data)@[b + k],
        forall|k: int| 0 <= k < n ==> #[trigger] final(data)@[b + k] == old(data)@[a + k],
        forall|i: int|
            0 <= i < old(data)@.len() && !(a <= i < a + n) && !(b <= i < b + n)
                ==> #[trigger] final(data)@[i] == old(data)@[i],
{
    let ghost orig = data@;
    let mut k: usize = 0;
    while k < n
        invariant
            k <= n,
            a + n <= b,
            b + n <= orig.len(),
            data@.len() == orig.len(),
            forall|j: int| 0 <= j < k ==> #[trigger] data@[a + j] == orig[b + j],
            forall|j: int| 0 <= j < k ==> #[trigger] data@[b + j] == orig[a + j],
            forall|i: int|
                0 <= i < orig.len() && !(a <= i < a + k) && !(b <= i < b + k) ==> #[trigger] data@[i]
                    == orig[i],
        decreases n - k,
    {
        let t = data[a + k];
        let u = data[b + k];
        data[a + k] = u;
        data[b + k] = t;
        k = k + 1;
    }
}

/// Exchanges the pixel at byte offset `left` with the one at `right`.
pub fn swap_pixels(data: &mut [u8], left: usize, right: usize)
    requires
        left + BYTES_PER_PIXEL <= right,
        right + BYTES_PER_PIXEL <= old(data)@.len(),
    ensures
        final(data)@.len() == old(data)@.len(),
        forall|k: int| 0 <= k < 4 ==> #[trigger] final(data)@[left + k] == old(data)@[right + k],
        forall|k: int| 0 <= k < 4 ==> #[trigger] final(data)@[right + k] == old(data)@[left + k],
        forall|i: int|
            0 <= i < old(data)@.len() && !(left <= i < left + 4) && !(right <= i < right + 4)
                ==> #[trigger] final(data)@[i] == old(data)@[i],
{
    swap_ranges(data, left, right, BYTES_PER_PIXEL);
}

proof fn lemma_row_offset(x: int, y: int, width: int, c: int, row_size: int)
    requires
        row_size == width * 4,
    ensures
        byte_index(x, y, width, c) == y * row_size + x * 4 + c,
{
    assert(byte_index(x, y, width, c) == y * row_size + x * 4 + c) by (nonlinear_arith)
        requires row_size == width * 4;
}

proof fn lemma_row_bounds(y: int, height: int, row_size: int)
    requires
        0 <= y < height,
        0 <= row_size,
    ensures
        0 <= y * row_size,
        y * row_size + row_size <= height * row_size,
{
    assert(0 <= y * row_size) by (nonlinear_arith)
        requires 0 <= y, 0 <= row_size;
    assert(y * row_size + row_size <= height * row_size) by (nonlinear_arith)
        requires y < height, 0 <= row_size;
}

/// Offset of channel `c` of the `x`-th pixel of row `y` when rows are
/// `row_size` bytes long.
pub open spec fn row_pixel(y: int, row_size: int, x: int, c: int) -> int {
    y * row_size + x * 4 + c
}

/// `after` is `before` with the first `width` pixels of each of its first
/// `height` rows (of `row_size` bytes) in reverse order; the rest of each row
/// and the bytes past the rows are kept.
pub open spec fn columns_reversed(
    before: Seq<u8>,
    after: Seq<u8>,
    width: int,
    height: int,
    row_size: int,
) -> bool {
    &&& after.len() == before.len()
    &&& forall|y: int, x: int, c: int|
        0 <= y < height && 0 <= x < width && 0 <= c < 4 ==> #[trigger] after[row_pixel(y, row_size, x, c)]
            == before[row_pixel(y, row_size, width - 1 - x, c)]
    &&& forall|y: int, k: int|
        0 <= y < height && width * 4 <= k < row_size ==> #[trigger] after[row_offset(y, row_size, k)]
            == before[row_offset(y, row_size, k)]
    &&& forall|i: int| height * row_size <= i < before.len() ==> #[trigger] after[i] == before[i]
}

/// Flips the first `width` pixels of each of the first `height` rows
/// left-right, pixel by pixel; the rest of each `row_size`-byte row is kept.
pub fn swap_horizontal(data: &mut [u8], width: usize, height: usize, row_size: usize)
    requires
        width * BYTES_PER_PIXEL <= row_size,
        height * row_size <= old(data)@.len(),
    ensures
        columns_reversed(old(data)@, final(data)@, width as int, height as int, row_size as int),
{
    let ghost orig = data@;
    let ghost w = width as int;
    let ghost rs = row_size as int;
    let total = data.len();
    let mut y: usize = 0;
    while y < height
        invariant
            y <= height,
            orig.len() == total,
            data@.len() == total,
            w == width,
            rs == row_size,
            width * 4 <= row_size,
            height * row_size <= total,
            forall|yy: int, xx: int, c: int|
                0 <= yy < y && 0 <= xx < w && 0 <= c < 4 ==> #[trigger] data@[row_pixel(yy, rs, xx, c)]
                    == orig[row_pixel(yy, rs, w - 1 - xx, c)],
            forall|yy: int, k: int|
                0 <= yy < y && w * 4 <= k < rs ==> #[trigger] data@[row_offset(yy, rs, k)]
                    == orig[row_offset(yy, rs, k)],
            forall|i: int| y * rs <= i < total ==> #[trigger] data@[i] == orig[i],
        decreases height - y,
    {
        proof {
            lemma_row_bounds(y as int, height as int, rs);
        }
        let row_start = y * row_size;
        let mut x: usize = 0;
        while x < width / 2
            invariant
                y < height,
                x <= width / 2,
                orig.len() == total,
                data@.len() == total,
                w == width,
                rs == row_size,
                width * 4 <= row_size,
                height * row_size <= total,
                row_start == y * rs,
                row_start + rs <= total,
                forall|yy: int, xx: int, c: int|
                    0 <= yy < y && 0 <= xx < w && 0 <= c < 4 ==> #[trigger] data@[row_pixel(
                        yy,
                        rs,
                        xx,
                        c,
                    )] == orig[row_pixel(yy, rs, w - 1 - xx, c)],
                forall|yy: int, k: int|
                    0 <= yy < y && w * 4 <= k < rs ==> #[trigger] data@[row_offset(yy, rs, k)]
                        == orig[row_offset(yy, rs, k)],
                forall|xx: int, c: int|
                    0 <= xx < x && 0 <= c < 4 ==> #[trigger] data@[row_pixel(y as int, rs, xx, c)]
                        == orig[row_pixel(y as int, rs, w - 1 - xx, c)],
                forall|xx: int, c: int|
                    0 <= xx < x && 0 <= c < 4 ==> #[trigger] data@[row_pixel(y as int, rs, w - 1 - xx, c)]
                        == orig[row_pixel(y as int, rs, xx, c)],
                forall|i: int|
                    row_start + x * 4 <= i < row_start + (w - x) * 4 ==> #[trigger] data@[i] == orig[i],
                forall|i: int| row_start + w * 4 <= i < total ==> #[trigger] data@[i] == orig[i],
            decreases width / 2 - x,
        {
            let left = row_start + x * BYTES_PER_PIXEL;
            let right = row_start + (width - 1 - x) * BYTES_PER_PIXEL;
            let ghost prev = data@;
            swap_pixels(data, left, right);
            proof {
                assert forall|yy: int, xx: int, c: int|
                    0 <= yy < y && 0 <= xx < w && 0 <= c < 4 implies #[trigger] data@[row_pixel(
                        yy,
                        rs,
                        xx,
                        c,
                    )] == orig[row_pixel(yy, rs, w - 1 - xx, c)] by {
                    lemma_row_bounds(yy, y as int, rs);
                    assert(prev[row_pixel(yy, rs, xx, c)] == orig[row_pixel(yy, rs, w - 1 - xx, c)]);
                }
                assert forall|yy: int, k: int|
                    0 <= yy < y && w * 4 <= k < rs implies #[trigger] data@[row_offset(yy, rs, k)]
                        == orig[row_offset(yy, rs, k)] by {
                    lemma_row_bounds(yy, y as int, rs);
                    assert(prev[row_offset(yy, rs, k)] == orig[row_offset(yy, rs, k)]);
                }
                assert forall|xx: int, c: int|
                    0 <= xx < x + 1 && 0 <= c < 4 implies #[trigger] data@[row_pixel(
                        y as int,
                        rs,
                        xx,
                        c,
                    )] == orig[row_pixel(y as int, rs, w - 1 - xx, c)] by {
                    if xx == x {
                        assert(data@[left + c] == prev[right + c]);
                    } else {
                        assert(prev[row_pixel(y as int, rs, xx, c)] == orig[row_pixel(
                            y as int,
                            rs,
                            w - 1 - xx,
                            c,
                        )]);
                    }
                }
                assert forall|xx: int, c: int|
                    0 <= xx < x + 1 && 0 <= c < 4 implies #[trigger] data@[row_pixel(
                        y as int,
                        rs,
                        w - 1 - xx,
                        c,
                    )] == orig[row_pixel(y as int, rs, xx, c)] by {
                    if xx == x {
                        assert(data@[right + c] == prev[left + c]);
                    } else {
                        assert(prev[row_pixel(y as int, rs, w - 1 - xx, c)] == orig[row_pixel(
                            y as int,
                            rs,
                            xx,
                            c,
                        )]);
                    }
                }
                assert forall|i: int|
                    row_start + (x + 1) * 4 <= i < row_start + (w - (x + 1)) * 4 implies #[trigger] data@[i]
                        == orig[i] by {
                    assert(prev[i] == orig[i]);
                }
                assert forall|i: int| row_start + w * 4 <= i < total implies #[trigger] data@[i]
                    == orig[i] by {
                    assert(prev[i] == orig[i]);
                }
            }
            x = x + 1;
        }
        proof {
            assert(x == width / 2);
            assert forall|yy: int, xx: int, c: int|
                0 <= yy < y + 1 && 0 <= xx < w && 0 <= c < 4 implies #[trigger] data@[row_pixel(
                    yy,
                    rs,
                    xx,
                    c,
                )] == orig[row_pixel(yy, rs, w - 1 - xx, c)] by {
                if yy == y {
                    if xx < x {
                    } else if w - 1 - xx < x {
                        assert(data@[row_pixel(y as int, rs, w - 1 - (w - 1 - xx), c)] == orig[row_pixel(
                            y as int,
                            rs,
                            w - 1 - xx,
                            c,
                        )]);
                    } else {
                        assert(xx == w - 1 - xx);
                        assert(data@[row_pixel(y as int, rs, xx, c)] == orig[row_pixel(y as int, rs, xx, c)]);
                    }
                }
            }
            assert forall|yy: int, k: int|
                0 <= yy < y + 1 && w * 4 <= k < rs implies #[trigger] data@[row_offset(yy, rs, k)]
                    == orig[row_offset(yy, rs, k)] by {
                if yy == y {
                    assert(data@[row_start + k] == orig[row_start + k]);
                }
            }
            assert((y + 1) * rs == row_start + rs) by (nonlinear_arith)
                requires row_start == y * rs;
        }
        y = y + 1;
    }
}

/// A row length of `row_size` bytes splits a buffer offset below `height` rows into
/// a row and an offset within it.
proof fn lemma_split_row(i: int, height: int, row_size: int)
    requires
        0 <= height,
        0 <= row_size,
        0 <= i < height * row_size,
    ensures
        row_size > 0,
        0 <= i / row_size < height,
        0 <= i % row_size < row_size,
        i == row_offset(i / row_size, row_size, i % row_size),
{
    assert(row_size > 0) by (nonlinear_arith)
        requires 0 <= i < height * row_size, 0 <= height, 0 <= row_size;
    let y = i / row_size;
    let k = i % row_size;
    assert(i == y * row_size + k && 0 <= k < row_size) by (nonlinear_arith)
        requires row_size > 0, y == i / row_size, k == i % row_size;
    assert(0 <= y < height) by (nonlinear_arith)
        requires i == y * row_size + k, 0 <= k < row_size, 0 <= i < height * row_size, row_size > 0;
}

/// Reversing the pixels of each row twice gives the buffer back, padding and
/// all.
pub proof fn lemma_columns_reversed_twice(
    a: Seq<u8>,
    b: Seq<u8>,
    c: Seq<u8>,
    width: nat,
    height: nat,
    row_size: nat,
)
    requires
        width * 4 <= row_size,
        height * row_size <= a.len(),
        columns_reversed(a, b, width as int, height as int, row_size as int),
        columns_reversed(b, c, width as int, height as int, row_size as int),
    ensures
        c == a,
{
    let w = width as int;
    let h = height as int;
    let rs = row_size as int;
    assert forall|i: int| 0 <= i < a.len() implies #[trigger] c[i] == a[i] by {
        if i < h * rs {
            lemma_split_row(i, h, rs);
            let y = i / rs;
            let k = i % rs;
            if k < w * 4 {
                let x = k / 4;
                let ch = k % 4;
                assert(i == row_pixel(y, rs, x, ch));
                assert(c[row_pixel(y, rs, x, ch)] == b[row_pixel(y, rs, w - 1 - x, ch)]);
                assert(b[row_pixel(y, rs, w - 1 - x, ch)] == a[row_pixel(y, rs, w - 1 - (w - 1 - x), ch)]);
            } else {
                assert(c[row_offset(y, rs, k)] == b[row_offset(y, rs, k)]);
                assert(b[row_offset(y, rs, k)] == a[row_offset(y, rs, k)]);
            }
        }
    }
    assert(c =~= a);
}

/// Reversing the order of the rows twice gives the buffer back.
pub proof fn lemma_rows_reversed_twice(a: Seq<u8>, b: Seq<u8>, c: Seq<u8>, height: nat, row_size: nat)
    requires
        height * row_size <= a.len(),
        rows_reversed(a, b, height as int, row_size as int),
        rows_reversed(b, c, height as int, row_size as int),
    ensures
        c == a,
{
    let h = height as int;
    let rs = row_size as int;
    assert forall|i: int| 0 <= i < a.len() implies #[trigger] c[i] == a[i] by {
        if i < h * rs {
            lemma_split_row(i, h, rs);
            let y = i / rs;
            let k = i % rs;
            assert(c[row_offset(y, rs, k)] == b[row_offset(h - 1 - y, rs, k)]);
            assert(b[row_offset(h - 1 - y, rs, k)] == a[row_offset(h - 1 - (h - 1 - y), rs, k)]);
        }
    }
    assert(c =~= a);
}

/// On rows of exactly `width` pixels, reversing the pixels of each row is the
/// left-right mirror image.
pub proof fn lemma_columns_reversed_is_horizontal_mirror(before: Seq<u8>, after: Seq<u8>, width: nat, height: nat)
    requires
        columns_reversed(before, after, width as int, height as int, (width * 4) as int),
    ensures
        after == mirrored_horizontally(before, width as int, height as int),
{
    let w = width as int;
    let h = height as int;
    let target = mirrored_horizontally(before, w, h);
    assert((h * (w * 4)) == w * h * 4) by (nonlinear_arith);
    assert forall|i: int| 0 <= i < before.len() implies #[trigger] after[i] == target[i] by {
        if i < w * h * 4 {
            lemma_decompose(i, w, h);
            let x = column_of(i, w);
            let y = row_of(i, w);
            let c = channel_of(i);
            lemma_row_offset(x, y, w, c, w * 4);
            lemma_row_offset(w - 1 - x, y, w, c, w * 4);
            assert(after[row_pixel(y, w * 4, x, c)] == before[row_pixel(y, w * 4, w - 1 - x, c)]);
        }
    }
    assert(after =~= target);
}

/// Reverses the order of the first `height` rows, `row_size` bytes each.
pub fn swap_vertical(data: &mut [u8], height: usize, row_size: usize)
    requires
        height * row_size <= old(data)@.len(),
    ensures
        rows_reversed(old(data)@, final(data)@, height as int, row_size as int),
{
    let ghost orig = data@;
    let ghost h = height as int;
    let ghost rs = row_size as int;
    let total = data.len();
    let mut y: usize = 0;
    while y < height / 2
        invariant
            y <= height / 2,
            h == height,
            rs == row_size,
            orig.len() == total,
            data@.len() == total,
            height * row_size <= total,
            forall|yy: int, k: int|
                0 <= yy < y && 0 <= k < rs ==> #[trigger] data@[row_offset(yy, rs, k)] == orig[row_offset(
                    h - 1 - yy,
                    rs,
                    k,
                )],
            forall|yy: int, k: int|
                0 <= yy < y && 0 <= k < rs ==> #[trigger] data@[row_offset(h - 1 - yy, rs, k)]
                    == orig[row_offset(yy, rs, k)],
            forall|i: int| y * rs <= i < (h - y) * rs ==> #[trigger] data@[i] == orig[i],
            forall|i: int| h * rs <= i < total ==> #[trigger] data@[i] == orig[i],
        decreases height / 2 - y,
    {
        proof {
            lemma_row_bounds(y as int, h, rs);
            lemma_row_bounds(h - 1 - y, h, rs);
            assert((y + 1) * rs <= (h - 1 - y) * rs) by (nonlinear_arith)
                requires y + 1 <= h - 1 - y, 0 <= rs;
            assert((y + 1) * rs == y * rs + rs && (h - y) * rs == (h - 1 - y) * rs + rs)
                by (nonlinear_arith);
        }
        let top = y * row_size;
        let bottom = (height - 1 - y) * row_size;
        let ghost prev = data@;
        swap_ranges(data, top, bottom, row_size);
        proof {
            assert forall|yy: int, k: int|
                0 <= yy < y + 1 && 0 <= k < rs implies #[trigger] data@[row_offset(yy, rs, k)]
                    == orig[row_offset(h - 1 - yy, rs, k)] by {
                lemma_row_bounds(h - 1 - yy, h, rs);
                if yy == y {
                    assert(data@[top + k] == prev[bottom + k]);
                } else {
                    lemma_row_bounds(yy, y as int, rs);
                    assert((h - 1 - yy) * rs >= (h - y) * rs) by (nonlinear_arith)
                        requires yy < y, 0 <= rs;
                    assert(prev[row_offset(yy, rs, k)] == orig[row_offset(h - 1 - yy, rs, k)]);
                }
            }
            assert forall|yy: int, k: int|
                0 <= yy < y + 1 && 0 <= k < rs implies #[trigger] data@[row_offset(h - 1 - yy, rs, k)]
                    == orig[row_offset(yy, rs, k)] by {
                lemma_row_bounds(h - 1 - yy, h, rs);
                if yy == y {
                    assert(data@[bottom + k] == prev[top + k]);
                } else {
                    lemma_row_bounds(yy, y as int, rs);
                    assert((h - 1 - yy) * rs >= (h - y) * rs) by (nonlinear_arith)
                        requires yy < y, 0 <= rs;
                    assert(prev[row_offset(h - 1 - yy, rs, k)] == orig[row_offset(yy, rs, k)]);
                }
            }
            assert forall|i: int| (y + 1) * rs <= i < (h - (y + 1)) * rs implies #[trigger] data@[i]
                == orig[i] by {
                assert(prev[i] == orig[i]);
            }
        }
        y = y + 1;
    }
    proof {
        assert forall|yy: int, k: int|
            0 <= yy < h && 0 <= k < rs implies #[trigger] data@[row_offset(yy, rs, k)] == orig[row_offset(
                h - 1 - yy,
                rs,
                k,
            )] by {
            lemma_row_bounds(yy, h, rs);
            if yy < y {
            } else if h - 1 - yy < y {
                assert(data@[row_offset(h - 1 - (h - 1 - yy), rs, k)] == orig[row_offset(
                    h - 1 - yy,
                    rs,
                    k,
                )]);
            } else {
                assert(yy == h - 1 - yy);
                assert((h - y) * rs == y * rs + rs) by (nonlinear_arith)
                    requires yy == y, yy == h - 1 - yy;
                assert(data@[row_offset(yy, rs, k)] == orig[row_offset(yy, rs, k)]);
            }
        }
    }
}

/// Rows reversed in a buffer whose rows are `width` pixels long are the
/// vertical mirror image.
pub proof fn lemma_rows_reversed_is_vertical_mirror(before: Seq<u8>, after: Seq<u8>, width: int, height: int)
    requires
        0 <= width,
        0 <= height,
        rows_reversed(before, after, height, width * 4),
    ensures
        after == mirrored_vertically(before, width, height),
{
    let target = mirrored_vertically(before, width, height);
    assert((height * (width * 4)) == width * height * 4) by (nonlinear_arith);
    assert forall|i: int| 0 <= i < before.len() implies #[trigger] after[i] == target[i] by {
        if i < width * height * 4 {
            lemma_decompose(i, width, height);
            let x = column_of(i, width);
            let y = row_of(i, width);
            let c = channel_of(i);
            lemma_row_offset(x, y, width, c, width * 4);
            lemma_row_offset(x, height - 1 - y, width, c, width * 4);
            assert(after[row_offset(y, width * 4, x * 4 + c)] == before[row_offset(
                height - 1 - y,
                width * 4,
                x * 4 + c,
            )]);
        }
    }
    assert(after =~= target);
}

/// Mirroring left-right twice gives the image back.
pub proof fn lemma_horizontal_mirror_involution(s: Seq<u8>, width: nat, height: nat)
    requires
        s.len() >= width * height * 4,
    ensures
        mirrored_horizontally(mirrored_horizontally(s, width as int, height as int), width as int, height as int) == s,
{
    let w = width as int;
    let h = height as int;
    let once = mirrored_horizontally(s, w, h);
    let twice = mirrored_horizontally(once, w, h);
    assert forall|i: int| 0 <= i < s.len() implies #[trigger] twice[i] == s[i] by {
        if i < w * h * 4 {
            lemma_decompose(i, w, h);
            let x = column_of(i, w);
            let y = row_of(i, w);
            let c = channel_of(i);
            lemma_compose(w - 1 - x, y, w, h, c);
        }
    }
    assert(twice =~= s);
}

/// Mirroring top-bottom twice gives the image back.
pub proof fn lemma_vertical_mirror_involution(s: Seq<u8>, width: nat, height: nat)
    requires
        s.len() >= width * height * 4,
    ensures
        mirrored_vertically(mirrored_vertically(s, width as int, height as int), width as int, height as int) == s,
{
    let w = width as int;
    let h = height as int;
    let once = mirrored_vertically(s, w, h);
    let twice = mirrored_vertically(once, w, h);
    assert forall|i: int| 0 <= i < s.len() implies #[trigger] twice[i] == s[i] by {
        if i < w * h * 4 {
            lemma_decompose(i, w, h);
            let x = column_of(i, w);
            let y = row_of(i, w);
            let c = channel_of(i);
            lemma_compose(x, h - 1 - y, w, h, c);
        }
    }
    assert(twice =~= s);
}

/// The two mirrors commute: the order in which the flips are applied does not
/// matter.
pub proof fn lemma_mirrors_commute(s: Seq<u8>, width: nat, height: nat)
    requires
        s.len() >= width * height * 4,
    ensures
        mirrored_vertically(mirrored_horizontally(s, width as int, height as int), width as int, height as int)
            == mirrored_horizontally(mirrored_vertically(s, width as int, height as int), width as int, height as int),
{
    let w = width as int;
    let h = height as int;
    let hv = mirrored_vertically(mirrored_horizontally(s, w, h), w, h);
    let vh = mirrored_horizontally(mirrored_vertically(s, w, h), w, h);
    assert forall|i: int| 0 <= i < s.len() implies #[trigger] hv[i] == vh[i] by {
        if i < w * h * 4 {
            lemma_decompose(i, w, h);
            let x = column_of(i, w);
            let y = row_of(i, w);
            let c = channel_of(i);
            lemma_compose(x, h - 1 - y, w, h, c);
            lemma_compose(w - 1 - x, y, w, h, c);
        }
    }
    assert(hv =~= vh);
}

/// Mirrors the image as the JSON `params` ask: `horizontal` flips it
/// left-right, `vertical` top-bottom; a member that is missing or not a
/// boolean counts as `false`, and text that is not JSON leaves it as it is.
pub fn process_image(width: u32, height: u32, rgba_data: &mut [u8], params: &str)
    requires
        old(rgba_data)@.len() >= width * height * 4,
    ensures
        final(rgba_data)@ == mirror_result(old(rgba_data)@, width as int, height as int, params@),
{
    let request = match crate::params::parse_mirror_params(params) {
        Ok(p) => p,
        Err(_) => return ,
    };
    if !request.horizontal && !request.vertical {
        return ;
    }
    let w = width as usize;
    let h = height as usize;
    let len = rgba_data.len();
    if h == 0 {
        proof {
            assert((w as int) * 0 * 4 == 0) by (nonlinear_arith);
            assert(rgba_data@ =~= mirrored_horizontally(rgba_data@, w as int, 0));
            assert(rgba_data@ =~= mirrored_vertically(rgba_data@, w as int, 0));
            assert(rgba_data@ =~= mirrored_vertically(mirrored_horizontally(rgba_data@, w as int, 0), w as int, 0));
        }
        return ;
    }
    proof {
        assert((h as int) * ((w as int) * 4) == (w as int) * (h as int) * 4) by (nonlinear_arith);
        assert((w as int) * 4 <= (w as int) * (h as int) * 4) by (nonlinear_arith)
            requires h >= 1;
        assert((w as int) * 4 <= len);
    }
    let row_size = w * BYTES_PER_PIXEL;
    let ghost orig = rgba_data@;
    if request.horizontal {
        swap_horizontal(rgba_data, w, h, row_size);
        proof {
            lemma_columns_reversed_is_horizontal_mirror(orig, rgba_data@, w as nat, h as nat);
        }
    }
    let ghost flipped = rgba_data@;
    if request.vertical {
        swap_vertical(rgba_data, h, row_size);
        proof {
            lemma_rows_reversed_is_vertical_mirror(flipped, rgba_data@, w as int, h as int);
        }
    }
}


/// Where the mirror plugin takes each byte from: channel `c` of pixel (x, y)
/// of the result is channel `c` of pixel (x', y') of the input, where x' is
/// `width - 1 - x` exactly when the JSON member `horizontal` is `true` and y'
/// is `height - 1 - y` exactly when the member `vertical` is `true`; text
/// that is not JSON moves nothing.
pub proof fn lemma_mirror_result_moves_pixels(
    s: Seq<u8>,
    width: nat,
    height: nat,
    params: Seq<char>,
    x: int,
    y: int,
    c: int,
)
    requires
        s.len() >= width * height * 4,
        0 <= x < width,
        0 <= y < height,
        0 <= c < 4,
    ensures
        ({
            let flip_x = crate::params::json_accepts(params) && crate::params::json_member_bool(
                params,
                "horizontal"@,
            ) == Some(true);
            let flip_y = crate::params::json_accepts(params) && crate::params::json_member_bool(
                params,
                "vertical"@,
            ) == Some(true);
            let sx = if flip_x {
                width - 1 - x
            } else {
                x
            };
            let sy = if flip_y {
                height - 1 - y
            } else {
                y
            };
            mirror_result(s, width as int, height as int, params)[(y * width + x) * 4 + c] == s[(sy
                * width + sx) * 4 + c]
        }),
        mirror_result(s, width as int, height as int, params).len() == s.len(),
{
    let w = width as int;
    let h = height as int;
    crate::params::lemma_mirror_flags_from_own_members(params);
    let i = (y * w + x) * 4 + c;
    lemma_compose(x, y, w, h, c);
    lemma_compose(w - 1 - x, y, w, h, c);
    lemma_compose(x, h - 1 - y, w, h, c);
    lemma_compose(w - 1 - x, h - 1 - y, w, h, c);
    let hm = mirrored_horizontally(s, w, h);
    assert(hm[byte_index(x, h - 1 - y, w, c)] == s[byte_index(w - 1 - x, h - 1 - y, w, c)]);
    assert(hm[i] == s[byte_index(w - 1 - x, y, w, c)]);
}

/// The mirrors keep every byte past the image.
pub proof fn lemma_mirrors_keep_bytes_past_image(s: Seq<u8>, width: nat, height: nat)
    ensures
        forall|i: int|
            width * height * 4 <= i < s.len() ==> #[trigger] mirrored_horizontally(
                s,
                width as int,
                height as int,
            )[i] == s[i] && mirrored_vertically(s, width as int, height as int)[i] == s[i],
{
}

} // verus!
