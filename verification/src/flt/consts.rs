//! The doubles that the library writes down.
use vstd::prelude::*;

use crate::flt::{Flt, INF_MAG};

verus! {

impl Flt {
    /// 0
    #[verifier::allow_in_spec]
    pub fn zero() -> Flt
        returns
            (Flt { bits: 0 }),
    {
        Flt { bits: 0 }
    }

    /// 1/2
    #[verifier::allow_in_spec]
    pub fn half() -> Flt
        returns
            (Flt { bits: 0x3fe0_0000_0000_0000 }),
    {
        Flt { bits: 0x3fe0_0000_0000_0000 }
    }

    /// 1
    #[verifier::allow_in_spec]
    pub fn one() -> Flt
        returns
            (Flt { bits: 0x3ff0_0000_0000_0000 }),
    {
        Flt { bits: 0x3ff0_0000_0000_0000 }
    }

    /// 2
    #[verifier::allow_in_spec]
    pub fn two() -> Flt
        returns
            (Flt { bits: 0x4000_0000_0000_0000 }),
    {
        Flt { bits: 0x4000_0000_0000_0000 }
    }

    /// 60
    #[verifier::allow_in_spec]
    pub fn sixty() -> Flt
        returns
            (Flt { bits: 0x404e_0000_0000_0000 }),
    {
        Flt { bits: 0x404e_0000_0000_0000 }
    }

    /// The double nearest to 10^-12.
    #[verifier::allow_in_spec]
    pub fn tiny() -> Flt
        returns
            (Flt { bits: 0x3d71_9799_812d_ea11 }),
    {
        Flt { bits: 0x3d71_9799_812d_ea11 }
    }

    /// Positive infinity.
    #[verifier::allow_in_spec]
    pub fn infinity() -> Flt
        returns
            (Flt { bits: INF_MAG }),
    {
        Flt { bits: INF_MAG }
    }

    /// Negative infinity.
    #[verifier::allow_in_spec]
    pub fn neg_infinity() -> Flt
        returns
            (Flt { bits: 0xfff0_0000_0000_0000 }),
    {
        Flt { bits: 0xfff0_0000_0000_0000 }
    }
}

} // verus!
