//! The scale on which errors are counted.
use vstd::arithmetic::power2::*;
use vstd::prelude::*;

verus! {

/// One, as the value of a double.
pub open spec fn unit() -> int {
    pow2(1074) as int
}

/// 2^-44, as the value of a double.
pub open spec fn step() -> int {
    pow2(1030) as int
}

/// 2^-880, as the value of a double.
pub open spec fn least() -> int {
    pow2(194) as int
}

/// What one and a step are to one another, and the powers of two between.
pub proof fn lemma_scale()
    ensures
        step() > 0,
        unit() == 0x1000_0000_0000 * step(),
        pow2(1075) == 2 * unit(),
        pow2(1084) == 1024 * unit(),
        pow2(1085) == 2048 * unit(),
        pow2(1086) == 4096 * unit(),
        pow2(1090) == 0x1_0000 * unit(),
        pow2(1091) == 0x2_0000 * unit(),
        pow2(1094) == 0x10_0000 * unit(),
        pow2(1095) == 0x20_0000 * unit(),
        512 * pow2(1021) == step(),
        pow2(1031) == 2 * step(),
        pow2(1032) == 4 * step(),
        pow2(1036) == 64 * step(),
        pow2(1037) == 128 * step(),
        pow2(1040) == 1024 * step(),
        pow2(1041) == 2048 * step(),
{
    lemma2_to64();
    lemma2_to64_rest();
    lemma_pow2_pos(1030);
    lemma_pow2_adds(44, 1030);
    lemma_pow2_adds(1, 1074);
    lemma_pow2_adds(9, 1021);
    lemma_pow2_adds(10, 1074);
    lemma_pow2_adds(11, 1074);
    lemma_pow2_adds(12, 1074);
    lemma_pow2_adds(16, 1074);
    lemma_pow2_adds(17, 1074);
    lemma_pow2_adds(20, 1074);
    lemma_pow2_adds(21, 1074);
    lemma_pow2_adds(1, 1030);
    lemma_pow2_adds(2, 1030);
    lemma_pow2_adds(6, 1030);
    lemma_pow2_adds(7, 1030);
    lemma_pow2_adds(10, 1030);
    lemma_pow2_adds(11, 1030);
}

pub proof fn lemma_bound(x: int, y: int, a: int, b: int)
    requires
        0 <= x <= a,
        0 <= y <= b,
    ensures
        0 <= x * y <= a * b,
{
    assert(0 <= x * y <= a * b) by (nonlinear_arith)
        requires
            0 <= x <= a,
            0 <= y <= b,
    ;
}

} // verus!
