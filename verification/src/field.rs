//! Elements of the BabyBear field, held by their canonical representative.
use p3_field::integers::QuotientMap;
use p3_field::PrimeField32;
use vstd::prelude::*;

verus! {

/// The order of the BabyBear field, `15 * 2^27 + 1`.
pub const P: u32 = 2013265921;

/// An element of the BabyBear field.
///
/// Its view is the canonical representative, a number below `P`.
#[derive(Clone, Copy, Debug, PartialEq, Eq, Structural)]
pub struct BabyBear {
    value: u32,
}

impl View for BabyBear {
    type V = u32;

    closed spec fn view(&self) -> u32 {
        self.value
    }
}

impl BabyBear {
    #[verifier::type_invariant]
    spec fn canonical(self) -> bool {
        self.value < P
    }

    /// The element congruent to `x`.
    pub fn from_int(x: u32) -> (r: BabyBear)
        ensures
            r@ == x % P,
    {
        BabyBear { value: reduce(x) }
    }

    /// The canonical representative of the element.
    pub fn as_canonical_u32(&self) -> (r: u32)
        ensures
            r == self@,
            r < P,
    {
        proof {
            use_type_invariant(self);
        }
        self.value
    }
}

/// `QuotientMap::<u32>::from_int` of `p3_baby_bear::BabyBear`, read back with
/// `as_canonical_u32`: every integer is accepted and reduced modulo the field order.
#[verifier::external_body]
fn reduce(x: u32) -> (r: u32)
    ensures
        r == x % P,
{
    p3_baby_bear::BabyBear::from_int(x).as_canonical_u32()
}

/// The canonical representatives of a sequence of elements.
pub open spec fn limbs(s: Seq<BabyBear>) -> Seq<u32> {
    Seq::new(s.len(), |i: int| s[i]@)
}

/// Every limb is a canonical representative.
pub open spec fn is_canonical(s: Seq<u32>) -> bool {
    forall|i: int| 0 <= i < s.len() ==> #[trigger] s[i] < P
}

/// The limbs reduced modulo the field order.
pub open spec fn reduced(s: Seq<u32>) -> Seq<u32> {
    Seq::new(s.len(), |i: int| s[i] % P)
}

} // verus!
