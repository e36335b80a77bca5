//! The plain-text pixel-map encoding of a rendered frame: a `P3` header
//! followed by every sample written out in decimal, one image row per line.

use vstd::arithmetic::div_mod::{lemma_div_denominator, lemma_fundamental_div_mod};
use vstd::prelude::*;

verus! {

/// The decimal digits of a nonnegative number, most significant first.
pub open spec fn spec_decimal(n: int) -> Seq<u8>
    decreases n,
{
    if n < 0 {
        Seq::empty()
    } else if n < 10 {
        seq![(48 + n) as u8]
    } else {
        spec_decimal(n / 10).push((48 + n % 10) as u8)
    }
}

/// One pixel's text: its three channel bytes in decimal, each followed by a
/// space.
pub open spec fn spec_pixel(data: Seq<u8>, k: int) -> Seq<u8> {
    spec_decimal(data[3 * k] as int) + seq![32u8] + spec_decimal(data[3 * k + 1] as int)
        + seq![32u8] + spec_decimal(data[3 * k + 2] as int) + seq![32u8]
}

/// The first `c` pixels of row `r`, concatenated.
pub open spec fn spec_row_upto(data: Seq<u8>, cols: int, r: int, c: int) -> Seq<u8>
    decreases c,
{
    if c <= 0 {
        Seq::empty()
    } else {
        spec_row_upto(data, cols, r, c - 1) + spec_pixel(data, r * cols + (c - 1))
    }
}

/// The first `r` full rows, each ended by a newline.
pub open spec fn spec_rows_upto(data: Seq<u8>, cols: int, r: int) -> Seq<u8>
    decreases r,
{
    if r <= 0 {
        Seq::empty()
    } else {
        spec_rows_upto(data, cols, r - 1) + spec_row_upto(data, cols, r - 1, cols) + seq![10u8]
    }
}

/// The header: `P3`, the image size, and the maximum sample value, each on
/// its own line.
pub open spec fn spec_header(rows: int, cols: int) -> Seq<u8> {
    seq![80u8, 51u8, 10u8] + spec_decimal(cols) + seq![32u8] + spec_decimal(rows) + seq![10u8]
        + seq![50u8, 53u8, 53u8, 10u8]
}

/// The whole pixel-map text for `rows` rows of `cols` pixels.
pub open spec fn spec_ppm(rows: int, cols: int, data: Seq<u8>) -> Seq<u8> {
    spec_header(rows, cols) + spec_rows_upto(data, cols, rows)
}

/// Append a number's decimal digits to a byte buffer.
fn push_decimal(out: &mut Vec<u8>, n: u64)
    ensures
        final(out)@ == old(out)@ + spec_decimal(n as int),
    decreases n,
{
    if n < 10 {
        out.push(48 + (n as u8));
        proof {
            assert(final(out)@ =~= old(out)@ + spec_decimal(n as int));
        }
    } else {
        push_decimal(out, n / 10);
        out.push((48 + n % 10) as u8);
        proof {
            assert(final(out)@ =~= old(out)@ + spec_decimal(n as int));
        }
    }
}

/// Encode 8-bit RGB samples as a plain-text pixel map: data is row-major,
/// three bytes per pixel, and must fill its `rows` rows exactly. The output
/// is precisely [`spec_ppm`] for the column count the data implies.
pub fn write(rows: usize, data: &Vec<u8>) -> (out: Vec<u8>)
    requires
        rows >= 1,
        data@.len() as int % (3 * rows as int) == 0,
        data@.len() <= usize::MAX,
    ensures
        out@ == spec_ppm(rows as int, data@.len() as int / (3 * rows as int), data@),
{
    let num_bytes: usize = data.len();
    let cols: usize = num_bytes / rows / 3;
    proof {
        lemma_div_denominator(num_bytes as int, rows as int, 3);
        lemma_fundamental_div_mod(num_bytes as int, 3 * rows as int);
        assert((3 * rows as int) * (num_bytes as int / (3 * rows as int)) == 3 * (rows as int)
            * (cols as int));
        assert(num_bytes == 3 * (rows as int) * (cols as int)) by (nonlinear_arith)
            requires
                num_bytes as int == (3 * rows as int) * (cols as int) + 0,
        ;
    }
    let mut out: Vec<u8> = Vec::new();
    out.push(80);
    out.push(51);
    out.push(10);
    push_decimal(&mut out, cols as u64);
    out.push(32);
    push_decimal(&mut out, rows as u64);
    out.push(10);
    out.push(50);
    out.push(53);
    out.push(53);
    out.push(10);
    proof {
        assert(out@ =~= spec_header(rows as int, cols as int));
        assert(out@ =~= spec_header(rows as int, cols as int) + spec_rows_upto(
            data@,
            cols as int,
            0,
        ));
    }
    let mut r: usize = 0;
    while r < rows
        invariant
            rows >= 1,
            r <= rows,
            cols == num_bytes / rows / 3,
            num_bytes == data@.len(),
            num_bytes == 3 * (rows as int) * (cols as int),
            out@ == spec_header(rows as int, cols as int) + spec_rows_upto(data@, cols as int, r as int),
        decreases rows - r,
    {
        let mut c: usize = 0;
        while c < cols
            invariant
                rows >= 1,
                r < rows,
                c <= cols,
                cols == num_bytes / rows / 3,
                num_bytes == data@.len(),
                num_bytes == 3 * (rows as int) * (cols as int),
                out@ == spec_header(rows as int, cols as int) + spec_rows_upto(
                    data@,
                    cols as int,
                    r as int,
                ) + spec_row_upto(data@, cols as int, r as int, c as int),
            decreases cols - c,
        {
            proof {
                lemma_pixel_index_in_bounds(rows as int, cols as int, r as int, c as int);
            }
            let k: usize = (r * cols + c) * 3;
            push_decimal(&mut out, data[k] as u64);
            out.push(32);
            push_decimal(&mut out, data[k + 1] as u64);
            out.push(32);
            push_decimal(&mut out, data[k + 2] as u64);
            out.push(32);
            proof {
                assert(out@ =~= spec_header(rows as int, cols as int) + spec_rows_upto(
                    data@,
                    cols as int,
                    r as int,
                ) + spec_row_upto(data@, cols as int, r as int, c + 1));
            }
            c = c + 1;
        }
        out.push(10);
        proof {
            assert(out@ =~= spec_header(rows as int, cols as int) + spec_rows_upto(
                data@,
                cols as int,
                r + 1,
            ));
        }
        r = r + 1;
    }
    out
}

/// Inside the image, a pixel's last byte index stays below the buffer's
/// length.
proof fn lemma_pixel_index_in_bounds(rows: int, cols: int, r: int, c: int)
    requires
        0 <= r < rows,
        0 <= c < cols,
    ensures
        0 <= r * cols + c,
        (r * cols + c) * 3 + 2 < 3 * rows * cols,
        r * cols + c < rows * cols,
{
    assert(r * cols + c < rows * cols) by (nonlinear_arith)
        requires 0 <= r < rows, 0 <= c < cols;
    assert(0 <= r * cols) by (nonlinear_arith)
        requires 0 <= r, 0 < cols;
    assert((r * cols + c) * 3 + 2 < 3 * rows * cols) by (nonlinear_arith)
        requires r * cols + c < rows * cols, 0 <= r * cols + c;
}

} // verus!
