//! What holds of the built-in kernels and threshold matrices.

use crate::dither::{DitherMethod, BAYER2X2, BAYER4X4, BAYER8X8};
use vstd::prelude::*;

verus! {

/// Every method belongs to exactly one family: it quantizes without
/// dithering, or it diffuses error with a kernel, or it is ordered with
/// a threshold matrix.
pub proof fn lemma_method_families(method: DitherMethod)
    ensures
        method == DitherMethod::NoDither <==> method.kernel_view() is None
            && method.matrix_view() is None,
        !(method.kernel_view() is Some && method.matrix_view() is Some),
{
}

/// Sum of the first `n` entries of `weights`.
pub open spec fn sum_upto(weights: Seq<int>, n: int) -> int
    decreases n,
{
    if n <= 0 {
        0
    } else {
        sum_upto(weights, n - 1) + weights[n - 1]
    }
}

/// Sum of all entries of `weights`.
pub open spec fn total(weights: Seq<int>) -> int {
    sum_upto(weights, weights.len() as int)
}

/// Every built-in kernel hands on the whole error, its weights adding up
/// to the divisor, but for Atkinson's, which hands on six eighths.
pub proof fn lemma_kernel_weights_sum(method: DitherMethod)
    requires
        method.kernel_view() is Some,
    ensures
        method != DitherMethod::Atkinson ==> total(method.kernel_view().unwrap().weights)
            == method.kernel_view().unwrap().divisor,
        method == DitherMethod::Atkinson ==> total(method.kernel_view().unwrap().weights) == 6
            && method.kernel_view().unwrap().divisor == 8,
{
    reveal_with_fuel(sum_upto, 16);
}

/// What the Bayer construction adds in each quarter of the matrix: 0 at
/// the upper left, 2 at the upper right, 3 at the lower left and 1 at
/// the lower right.
pub open spec fn quadrant(right: int, lower: int) -> int {
    if lower == 0 {
        if right == 0 {
            0
        } else {
            2
        }
    } else {
        if right == 0 {
            3
        } else {
            1
        }
    }
}

/// Numerator, over `side * side`, of the Bayer threshold in column `x` of
/// row `y` of the matrix of the given side, a power of two. The matrix
/// of side one holds 0; a larger one holds in each quarter four times the
/// matrix of half its side, plus what [`quadrant`] gives for the quarter.
pub open spec fn bayer(side: int, x: int, y: int) -> int
    decreases side,
{
    if side <= 1 {
        0
    } else {
        let half = side / 2;
        4 * bayer(half, x % half, y % half) + quadrant(x / half, y / half)
    }
}

/// The three built-in threshold matrices are the Bayer matrices of sides
/// two, four and eight.
pub proof fn lemma_bayer_tables()
    ensures
        forall|x: int, y: int|
            0 <= x < 2 && 0 <= y < 2 ==> BAYER2X2@[y * 2 + x] == #[trigger] bayer(2, x, y),
        forall|x: int, y: int|
            0 <= x < 4 && 0 <= y < 4 ==> BAYER4X4@[y * 4 + x] == #[trigger] bayer(4, x, y),
        forall|x: int, y: int|
            0 <= x < 8 && 0 <= y < 8 ==> BAYER8X8@[y * 8 + x] == #[trigger] bayer(8, x, y),
{
    assert forall|x: int, y: int| 0 <= x < 2 && 0 <= y < 2 implies BAYER2X2@[y * 2 + x]
        == #[trigger] bayer(2, x, y) by {
        reveal_with_fuel(bayer, 2);
    }
    assert forall|x: int, y: int| 0 <= x < 4 && 0 <= y < 4 implies BAYER4X4@[y * 4 + x]
        == #[trigger] bayer(4, x, y) by {
        assert(bayer(4, x, y) == 4 * bayer(2, x % 2, y % 2) + quadrant(x / 2, y / 2));
        assert(BAYER2X2@[(y % 2) * 2 + x % 2] == bayer(2, x % 2, y % 2));
    }
    assert forall|x: int, y: int| 0 <= x < 8 && 0 <= y < 8 implies BAYER8X8@[y * 8 + x]
        == #[trigger] bayer(8, x, y) by {
        assert(bayer(8, x, y) == 4 * bayer(4, x % 4, y % 4) + quadrant(x / 4, y / 4));
        assert(BAYER4X4@[(y % 4) * 4 + x % 4] == bayer(4, x % 4, y % 4));
    }
}

} // verus!
