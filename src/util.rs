//! Frame buffer helpers for the display and export side.

use vstd::prelude::*;
use vstd::arithmetic::div_mod::lemma_fundamental_div_mod_converse;

verus! {

/// Where byte `j` of a vertically flipped `width x height` RGB buffer comes
/// from: row `r` of the image takes row `height - 1 - r`; bytes past the image
/// stay where they are.
pub open spec fn flipped_index(width: int, height: int, j: int) -> int {
    let row_len = 3 * width;
    if j < row_len * height {
        (height - 1 - j / row_len) * row_len + j % row_len
    } else {
        j
    }
}

/// A copy of a row-major RGB buffer with its rows in reverse order.
pub fn flip_vertically(frame_buffer: &Vec<u8>, width: usize, height: usize) -> (r: Vec<u8>)
    requires
        3 * width * height <= frame_buffer@.len(),
    ensures
        r@.len() == frame_buffer@.len(),
        forall|j: int|
            0 <= j < r@.len() ==> r@[j] == frame_buffer@[flipped_index(width as int, height as int, j)],
{
    let ghost fb = frame_buffer@;
    let ghost w = width as int;
    let ghost h = height as int;
    assert(3 * width * height == (3 * width) * height) by (nonlinear_arith);
    assert(3 * width <= 3 * width * height || height == 0) by (nonlinear_arith);
    let n = frame_buffer.len();
    let row_len: usize = if height == 0 { 0 } else { 3 * width };
    let mut out: Vec<u8> = Vec::new();
    let mut row: usize = 0;
    while row < height
        invariant
            fb == frame_buffer@,
            n == fb.len(),
            w == width,
            h == height,
            3 * w * h <= fb.len(),
            height > 0 ==> row_len == 3 * w,
            0 <= row <= height,
            out@.len() == row * row_len,
            forall|j: int| 0 <= j < out@.len() ==> out@[j] == fb[flipped_index(w, h, j)],
        decreases height - row,
    {
        let ghost before = row * row_len;
        assert(row * row_len + row_len <= row_len * height) by (nonlinear_arith)
            requires row < height, row_len >= 0;
        assert(row_len * height == 3 * w * h) by (nonlinear_arith)
            requires row_len == 3 * w, h == height;
        assert((height - 1 - row) * row_len + row_len <= row_len * height) by (nonlinear_arith)
            requires row < height, row_len >= 0;
        assert(0 <= (height - 1 - row) * row_len) by (nonlinear_arith)
            requires row < height, row_len >= 0;
        let src: usize = (height - 1 - row) * row_len;
        let mut c: usize = 0;
        while c < row_len
            invariant
                fb == frame_buffer@,
                n == fb.len(),
                w == width,
                h == height,
                row_len == 3 * w,
                row < height,
                row * row_len + row_len <= row_len * height,
                row_len * height <= fb.len(),
                src == (height - 1 - row) * row_len,
                src + row_len <= row_len * height,
                0 <= c <= row_len,
                out@.len() == row * row_len + c,
                forall|j: int| 0 <= j < out@.len() ==> out@[j] == fb[flipped_index(w, h, j)],
            decreases row_len - c,
        {
            proof {
                let j = row * row_len + c;
                lemma_fundamental_div_mod_converse(j as int, row_len as int, row as int, c as int);
                assert(j < row_len * height);
            }
            out.push(frame_buffer[src + c]);
            c = c + 1;
        }
        assert((row + 1) * row_len == row * row_len + row_len) by (nonlinear_arith);
        row = row + 1;
    }
    let mut j: usize = out.len();
    assert(out@.len() == 3 * w * h) by (nonlinear_arith)
        requires out@.len() == row * row_len, row == height, height > 0 ==> row_len == 3 * w, h == height;
    while j < n
        invariant
            fb == frame_buffer@,
            n == fb.len(),
            w == width,
            h == height,
            3 * w * h <= j <= n,
            out@.len() == j,
            forall|i: int| 0 <= i < out@.len() ==> out@[i] == fb[flipped_index(w, h, i)],
        decreases n - j,
    {
        assert(!(j < 3 * w * h));
        assert((3 * w) * h == 3 * w * h) by (nonlinear_arith);
        out.push(frame_buffer[j]);
        j = j + 1;
    }
    out
}

} // verus!
