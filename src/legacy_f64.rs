use vstd::prelude::*;

verus! {

/// The bit pattern of negative zero.
pub const NEGATIVE_ZERO_BITS: u64 = 0x8000_0000_0000_0000;

/// Whether the 64-bit float with these bits may appear in legacy data: it is
/// finite (its exponent field is not all ones) and it is not negative zero.
pub open spec fn is_valid_bits(bits: u64) -> bool {
    &&& (bits >> 52u64) & 0x7ffu64 != 0x7ffu64
    &&& bits != NEGATIVE_ZERO_BITS
}

/// The magnitude bits of a float (everything but the sign).
pub open spec fn magnitude(bits: u64) -> int {
    (bits % 0x8000_0000_0000_0000u64) as int
}

/// Whether the sign bit of a float is set.
pub open spec fn is_negative(bits: u64) -> bool {
    bits >= NEGATIVE_ZERO_BITS
}

/// A key that orders valid floats as the numbers they denote: for two finite
/// floats of one sign, the larger magnitude field is the larger magnitude.
pub open spec fn order_key(bits: u64) -> int {
    if is_negative(bits) {
        -magnitude(bits)
    } else {
        magnitude(bits)
    }
}

/// A 64-bit float, held by its bit pattern, that is neither an infinity, nor a
/// NaN, nor negative zero. Such floats are totally ordered.
#[derive(Clone, Copy, PartialEq, Eq, Debug)]
pub struct LegacyF64 {
    bits: u64,
}

impl LegacyF64 {
    #[verifier::type_invariant]
    spec fn inv(&self) -> bool {
        is_valid_bits(self.bits)
    }

    /// The bit pattern of this float.
    pub closed spec fn spec_bits(&self) -> u64 {
        self.bits
    }

    /// Checks whether the float with the given bits may be used as a `LegacyF64`.
    pub fn is_valid(bits: u64) -> (r: bool)
        ensures
            r == is_valid_bits(bits),
    {
        (bits >> 52u64) & 0x7ffu64 != 0x7ffu64 && bits != NEGATIVE_ZERO_BITS
    }

    /// Wraps the float with the given bits, if it is valid.
    pub fn from_bits(bits: u64) -> (r: Option<LegacyF64>)
        ensures
            r is Some <==> is_valid_bits(bits),
            r matches Some(f) ==> f.spec_bits() == bits,
    {
        if LegacyF64::is_valid(bits) {
            Some(LegacyF64 { bits })
        } else {
            None
        }
    }

    /// The bit pattern of this float.
    pub fn to_bits(&self) -> (r: u64)
        ensures
            r == self.spec_bits(),
            is_valid_bits(r),
    {
        proof {
            use_type_invariant(self);
        }
        self.bits
    }

    /// Compares two floats by the numbers they denote.
    pub fn compare(&self, other: &LegacyF64) -> (r: core::cmp::Ordering)
        ensures
            r == core::cmp::Ordering::Less <==> order_key(self.spec_bits()) < order_key(
                other.spec_bits(),
            ),
            r == core::cmp::Ordering::Equal <==> self == other,
            r == core::cmp::Ordering::Greater <==> order_key(self.spec_bits()) > order_key(
                other.spec_bits(),
            ),
    {
        proof {
            use_type_invariant(self);
            use_type_invariant(other);
        }
        let a = self.bits;
        let b = other.bits;
        let ma = a % NEGATIVE_ZERO_BITS;
        let mb = b % NEGATIVE_ZERO_BITS;
        let ka_neg = a >= NEGATIVE_ZERO_BITS;
        let kb_neg = b >= NEGATIVE_ZERO_BITS;
        if a == b {
            core::cmp::Ordering::Equal
        } else if !ka_neg && !kb_neg {
            if ma < mb {
                core::cmp::Ordering::Less
            } else {
                core::cmp::Ordering::Greater
            }
        } else if ka_neg && kb_neg {
            if ma > mb {
                core::cmp::Ordering::Less
            } else {
                core::cmp::Ordering::Greater
            }
        } else if ka_neg {
            core::cmp::Ordering::Less
        } else {
            core::cmp::Ordering::Greater
        }
    }
}

} // verus!
