//! Mapping a 32-bit value into a smaller range.
use vstd::prelude::*;

verus! {

/// The value that `range_map(v, max)` returns: the high half of the 64-bit
/// product `v * max`.
pub open spec fn range_map_spec(v: u32, max: u32) -> int {
    (v as int * max as int) / 0x1_0000_0000
}

/// Map `v` into `[0, max)` with Lemire's multiply-and-shift reduction,
/// without the rejection step (so with a small, benign bias).
pub fn range_map(v: u32, max: u32) -> (r: u32)
    requires
        max > 0,
    ensures
        r as int == range_map_spec(v, max),
        r < max,
{
    proof {
        assert((v as int) * (max as int) <= 0xffff_ffff * 0xffff_ffff) by (nonlinear_arith)
            requires
                v <= 0xffff_ffff,
                max <= 0xffff_ffff,
        ;
    }
    let p: u64 = v as u64 * max as u64;
    proof {
        assert(p >> 32u64 == p / 0x1_0000_0000u64) by (bit_vector);
        assert((v as int) * (max as int) < 0x1_0000_0000 * (max as int)) by (nonlinear_arith)
            requires
                v < 0x1_0000_0000,
                max > 0,
        ;
        assert((v as int * max as int) / 0x1_0000_0000 < max as int) by (nonlinear_arith)
            requires
                (v as int) * (max as int) < 0x1_0000_0000 * (max as int),
        ;
    }
    (p >> 32u64) as u32
}

} // verus!
