//! Dequantization and the inverse frequency transform of one 8x8 block.
//!
//! The transform is a fixed-point inverse discrete cosine transform: every
//! spatial sample is a weighted sum of the 64 dequantized coefficients, each
//! weight a cosine product carrying ten fractional bits per dimension; the
//! sum is rounded, shifted back down, level-shifted by 128 and clamped to a
//! byte.

use vstd::prelude::*;

verus! {

/// 512 * cos(m * pi / 16), rounded to the nearest integer, for m in [0, 8].
pub open spec fn cos_base_q9(m: int) -> int {
    if m == 0 {
        512
    } else if m == 1 {
        502
    } else if m == 2 {
        473
    } else if m == 3 {
        426
    } else if m == 4 {
        362
    } else if m == 5 {
        284
    } else if m == 6 {
        196
    } else if m == 7 {
        100
    } else {
        0
    }
}

/// 512 * cos(n * pi / 16), rounded, for n in [0, 32), by the symmetries of
/// the cosine around pi/2 and pi.
pub open spec fn half_cos_q9(n: int) -> int {
    if 0 <= n <= 8 {
        cos_base_q9(n)
    } else if 8 < n <= 16 {
        -cos_base_q9(16 - n)
    } else if 16 < n <= 24 {
        -cos_base_q9(n - 16)
    } else if 24 < n < 32 {
        cos_base_q9(32 - n)
    } else {
        0
    }
}

/// Transform weight of frequency `u` at spatial position `x`, both in
/// [0, 8): 1024 * (C(u)/2) * cos((2x+1) * u * pi / 16), rounded, where
/// C(0) = 1/sqrt(2) and C(u) = 1 otherwise.
pub open spec fn idct_weight(u: int, x: int) -> int {
    if u == 0 {
        362
    } else {
        half_cos_q9(((2 * x + 1) * u) % 32)
    }
}

/// Coefficient `k` of the block scaled by its quantization step.
pub open spec fn dequantized(coeffs: Seq<i16>, table: Seq<u16>, k: int) -> int {
    coeffs[k] * table[k]
}

/// Sum of the first `n` weighted dequantized coefficients contributing to
/// the sample at column `x`, row `y`.  Coefficient `k` carries horizontal
/// frequency `k % 8` and vertical frequency `k / 8`.
pub open spec fn idct_partial_sum(
    coeffs: Seq<i16>,
    table: Seq<u16>,
    x: int,
    y: int,
    n: int,
) -> int
    decreases n,
{
    if n <= 0 {
        0
    } else {
        idct_partial_sum(coeffs, table, x, y, n - 1) + idct_weight((n - 1) % 8, x) * idct_weight(
            (n - 1) / 8,
            y,
        ) * dequantized(coeffs, table, n - 1)
    }
}

/// The full weighted sum, rounded and scaled back down by 2^20 (the two
/// weights carry 2^10 each), as a flooring division.
pub open spec fn idct_value(coeffs: Seq<i16>, table: Seq<u16>, x: int, y: int) -> int {
    (idct_partial_sum(coeffs, table, x, y, 64) + 524288) / 1048576
}

/// The finished sample: the transform value level-shifted by 128 and
/// clamped to a byte.
pub open spec fn idct_sample(coeffs: Seq<i16>, table: Seq<u16>, x: int, y: int) -> u8 {
    let v = idct_value(coeffs, table, x, y) + 128;
    if v < 0 {
        0
    } else if v > 255 {
        255
    } else {
        v as u8
    }
}

fn cos_base_q9_exec(m: usize) -> (r: i64)
    requires
        m <= 8,
    ensures
        r == cos_base_q9(m as int),
{
    if m == 0 {
        512
    } else if m == 1 {
        502
    } else if m == 2 {
        473
    } else if m == 3 {
        426
    } else if m == 4 {
        362
    } else if m == 5 {
        284
    } else if m == 6 {
        196
    } else if m == 7 {
        100
    } else {
        0
    }
}

fn idct_weight_exec(u: usize, x: usize) -> (w: i64)
    requires
        u < 8,
        x < 8,
    ensures
        w == idct_weight(u as int, x as int),
        -512 <= w <= 512,
{
    if u == 0 {
        362
    } else {
        proof {
            assert((2 * x + 1) * u <= 105) by (nonlinear_arith)
                requires
                    x < 8,
                    u < 8,
            ;
        }
        let n: usize = ((2 * x + 1) * u) % 32;
        if n <= 8 {
            cos_base_q9_exec(n)
        } else if n <= 16 {
            -cos_base_q9_exec(16 - n)
        } else if n <= 24 {
            -cos_base_q9_exec(n - 16)
        } else {
            cos_base_q9_exec(32 - n)
        }
    }
}

/// True when byte position `j` of a plane with row stride `stride` lies in
/// the 8x8 rectangle whose top-left byte is `off`.
pub open spec fn in_block_rect(j: int, off: int, stride: int) -> bool {
    off <= j && (j - off) / stride < 8 && (j - off) % stride < 8
}

/// The plane after one transformed block is written at byte `off` with row
/// stride `stride`: every byte of the 8x8 rectangle holds its sample, every
/// byte outside it is unchanged.
pub open spec fn block_write(
    plane: Seq<u8>,
    coeffs: Seq<i16>,
    table: Seq<u16>,
    off: int,
    stride: int,
) -> Seq<u8> {
    Seq::new(
        plane.len(),
        |j: int|
            if in_block_rect(j, off, stride) {
                idct_sample(coeffs, table, (j - off) % stride, (j - off) / stride)
            } else {
                plane[j]
            },
    )
}

/// The plane while a block is being written, cell by cell in row-major
/// order: cells before row `y`, and cells of row `y` before column `x`,
/// hold their samples already.
spec fn block_write_partial(
    plane: Seq<u8>,
    coeffs: Seq<i16>,
    table: Seq<u16>,
    off: int,
    stride: int,
    y: int,
    x: int,
) -> Seq<u8> {
    Seq::new(
        plane.len(),
        |j: int|
            if in_block_rect(j, off, stride) && ((j - off) / stride < y || ((j - off) / stride == y
                && (j - off) % stride < x)) {
                idct_sample(coeffs, table, (j - off) % stride, (j - off) / stride)
            } else {
                plane[j]
            },
    )
}

/// Computes the spatial sample at column `x`, row `y` of one block: the
/// weighted sum of all 64 dequantized coefficients, rounded, level-shifted
/// and clamped.
fn compute_sample(coefficients: &[i16], quantization_table: &[u16; 64], x: usize, y: usize) -> (s:
    u8)
    requires
        coefficients@.len() == 64,
        x < 8,
        y < 8,
    ensures
        s == idct_sample(coefficients@, quantization_table@, x as int, y as int),
{
    let mut sum: i64 = 0;
    let mut k: usize = 0;
    while k < 64
        invariant
            coefficients@.len() == 64,
            x < 8,
            y < 8,
            k <= 64,
            sum == idct_partial_sum(coefficients@, quantization_table@, x as int, y as int, k as int),
            -(k as int) * 562949953421312 <= sum <= (k as int) * 562949953421312,
        decreases 64 - k,
    {
        let u: usize = k % 8;
        let v: usize = k / 8;
        let w1 = idct_weight_exec(u, x);
        let w2 = idct_weight_exec(v, y);
        proof {
            assert(-262144 <= w1 * w2 <= 262144) by (nonlinear_arith)
                requires
                    -512 <= w1 <= 512,
                    -512 <= w2 <= 512,
            ;
        }
        let ww: i64 = w1 * w2;
        let c0: i64 = coefficients[k] as i64;
        let t0: i64 = quantization_table[k] as i64;
        proof {
            assert(-2147450880 <= c0 * t0 <= 2147450880) by (nonlinear_arith)
                requires
                    -32768 <= c0 <= 32767,
                    0 <= t0 <= 65535,
            ;
        }
        let d: i64 = c0 * t0;
        proof {
            assert(-562949953421312 <= ww * d <= 562949953421312) by (nonlinear_arith)
                requires
                    -262144 <= ww <= 262144,
                    -2147450880 <= d <= 2147450880,
            ;
        }
        let term: i64 = ww * d;
        sum = sum + term;
        k = k + 1;
    }
    // Round and shift the fixed-point sum back down by 2^20.  The dividend
    // is biased by 2^56 so that the unsigned flooring division can be used,
    // then the quotient is unbiased by 2^36 again.
    let biased: i64 = sum + 524288 + 72057594037927936;
    let q: u64 = (biased as u64) / 1048576;
    let value: i64 = (q as i64) - 68719476736;
    proof {
        vstd::arithmetic::div_mod::lemma_hoist_over_denominator(
            sum + 524288,
            68719476736,
            1048576,
        );
    }
    let shifted: i64 = value + 128;
    if shifted < 0 {
        0
    } else if shifted > 255 {
        255
    } else {
        shifted as u8
    }
}

/// Dequantizes one 64-coefficient block against its quantization table,
/// applies the inverse frequency transform, and writes the resulting 8x8
/// spatial block into `output` starting at byte `output_offset`, advancing
/// by `output_linestride` per output row.
pub fn dequantize_and_idct_block(
    coefficients: &[i16],
    quantization_table: &[u16; 64],
    output_linestride: usize,
    output_offset: usize,
    output: &mut Vec<u8>,
)
    requires
        coefficients@.len() == 64,
        8 <= output_linestride,
        output_offset + 7 * output_linestride + 8 <= old(output)@.len(),
    ensures
        final(output)@ == block_write(
            old(output)@,
            coefficients@,
            quantization_table@,
            output_offset as int,
            output_linestride as int,
        ),
{
    let ghost orig: Seq<u8> = output@;
    proof {
        assert(orig.len() == output.len());
    }
    let ghost co: Seq<i16> = coefficients@;
    let ghost ta: Seq<u16> = quantization_table@;
    let ghost off: int = output_offset as int;
    let ghost stride: int = output_linestride as int;
    let mut y: usize = 0;
    while y < 8
        invariant
            coefficients@.len() == 64,
            co == coefficients@,
            ta == quantization_table@,
            off == output_offset as int,
            stride == output_linestride as int,
            8 <= output_linestride,
            output_offset + 7 * output_linestride + 8 <= orig.len(),
            orig.len() <= usize::MAX,
            y <= 8,
            output@ == block_write_partial(orig, co, ta, off, stride, y as int, 0),
        decreases 8 - y,
    {
        let mut x: usize = 0;
        while x < 8
            invariant
                coefficients@.len() == 64,
                co == coefficients@,
                ta == quantization_table@,
                off == output_offset as int,
                stride == output_linestride as int,
                8 <= output_linestride,
                output_offset + 7 * output_linestride + 8 <= orig.len(),
                orig.len() <= usize::MAX,
                y < 8,
                x <= 8,
                output@ == block_write_partial(orig, co, ta, off, stride, y as int, x as int),
            decreases 8 - x,
        {
            let s = compute_sample(coefficients, quantization_table, x, y);
            proof {
                assert(y * output_linestride <= 7 * output_linestride) by (nonlinear_arith)
                    requires
                        y <= 7,
                        output_linestride >= 0,
                ;
            }
            let idx: usize = output_offset + y * output_linestride + x;
            proof {
                vstd::arithmetic::div_mod::lemma_fundamental_div_mod_converse(
                    idx - off,
                    stride,
                    y as int,
                    x as int,
                );
            }
            output[idx] = s;
            proof {
                let prev = block_write_partial(orig, co, ta, off, stride, y as int, x as int);
                let next = block_write_partial(orig, co, ta, off, stride, y as int, x as int + 1);
                assert(idx - off == (y as int) * stride + (x as int));
                assert((idx - off) / stride == y as int);
                assert((idx - off) % stride == x as int);
                assert(output@ == prev.update(idx as int, s));
                assert forall|j: int| 0 <= j < orig.len() implies prev.update(idx as int, s)[j]
                    == next[j] by {
                    if off <= j {
                        vstd::arithmetic::div_mod::lemma_fundamental_div_mod(j - off, stride);
                        vstd::arithmetic::div_mod::lemma_mod_bound(j - off, stride);
                        if j == idx as int {
                            assert(in_block_rect(j, off, stride));
                            assert(next[j] == idct_sample(co, ta, x as int, y as int));
                            assert(prev.update(idx as int, s)[j] == s);
                        } else {
                            if in_block_rect(j, off, stride) && (j - off) / stride == y as int && (
                            j - off) % stride == x as int {
                                assert(j - off == stride * ((j - off) / stride) + (j - off)
                                    % stride);
                                vstd::arithmetic::mul::lemma_mul_is_commutative(
                                    stride,
                                    (j - off) / stride,
                                );
                                assert(j == idx as int);
                                assert(false);
                            }
                            assert(prev.update(idx as int, s)[j] == prev[j]);
                            assert(next[j] == prev[j]);
                        }
                    }
                }
                assert(output@ =~= next);
            }
            x = x + 1;
        }
        proof {
            let row_done = block_write_partial(orig, co, ta, off, stride, y as int, 8);
            let next_row = block_write_partial(orig, co, ta, off, stride, y as int + 1, 0);
            assert(row_done =~= next_row);
        }
        y = y + 1;
    }
    proof {
        let done = block_write_partial(orig, co, ta, off, stride, 8, 0);
        assert(done =~= block_write(orig, co, ta, off, stride));
    }
}

} // verus!
