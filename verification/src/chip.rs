//! The chip: the per-curve configuration data and the handle the gadget
//! operations hang off.
use vstd::prelude::*;

use crate::curve::curve_generator;
use crate::curve::curve_offset_generator;
use crate::ec_structs::ECPoint;
use crate::field::felt_from_u64;
use crate::field::felt_sub;
use crate::field::p;
use crate::field::Felt;
use crate::region::curve_b;

verus! {

/// The explicit per-curve configuration: the curve parameter `b`, the group
/// generator, and the precomputed point -2^256 * generator that the scalar
/// multiplication protocol subtracts at the end.
#[derive(Clone, Copy, Debug)]
pub struct ECConfig {
    pub b: Felt,
    pub gen: ECPoint,
    pub offset_gen: ECPoint,
}

impl ECConfig {
    /// The configuration carries exactly the curve's own constants: `b` is
    /// the curve parameter, `gen` is the group generator, and `offset_gen`
    /// is the fixed point -2^256 * generator; all points lie on the curve.
    pub open spec fn wf(self) -> bool {
        &&& self.b.wf()
        &&& self.b@ == curve_b()
        &&& self.gen.wf()
        &&& self.gen.on_curve_spec()
        &&& self.gen.x@ == 1
        &&& self.gen.y@ == 17631683881184975370165255887551781615748388533673675138860nat
        &&& self.offset_gen.wf()
        &&& self.offset_gen.on_curve_spec()
        &&& self.offset_gen.x@
            == 18292374296067206172215749431916515128228165256807037435601971767767562625877nat
        &&& self.offset_gen.y@
            == 8411761026004062292626067694055242675827541323706122037355419552115320964415nat
    }
}

/// The gadget chip for native elliptic-curve arithmetic.
#[derive(Clone, Copy, Debug)]
pub struct ECChip {
    pub config: ECConfig,
}

impl ECChip {
    pub fn construct(config: ECConfig) -> (r: Self)
        ensures
            r.config == config,
    {
        ECChip { config }
    }

    /// The configuration the chip was constructed with.
    pub fn config(&self) -> (r: &ECConfig)
        ensures
            r == self.config,
    {
        &self.config
    }

    /// Builds the canonical configuration of the embedded curve.
    pub fn configure() -> (c: ECConfig)
        ensures
            c.wf(),
    {
        let zero = felt_from_u64(0);
        let seventeen = felt_from_u64(17);
        let b = felt_sub(&zero, &seventeen);
        proof {
            vstd::arithmetic::div_mod::lemma_small_mod(17nat, p());
            vstd::arithmetic::div_mod::lemma_small_mod((p() - 17) as nat, p());
        }
        let gen = curve_generator();
        let offset_gen = curve_offset_generator();
        ECConfig { b, gen, offset_gen }
    }
}

} // verus!
