//! Declarations of the vcd crate's items that the library uses.

use vstd::prelude::*;

verus! {

/// vcd's four-valued logic scalar, visible to proofs by its variants.
#[verifier::external_type_specification]
pub struct ExValue(vcd::Value);

/// vcd's vector of logic scalars.
#[verifier::external_type_specification]
#[verifier::external_body]
pub struct ExVector(vcd::Vector);

/// vcd's identifier of a variable in the value-change section.
#[verifier::external_type_specification]
#[verifier::external_body]
pub struct ExIdCode(vcd::IdCode);

/// vcd's type of a declared variable, visible to proofs by its variants.
#[verifier::external_type_specification]
pub struct ExVarType(vcd::VarType);

/// The scalars a vcd vector holds, most significant first.
pub uninterp spec fn vector_bits(v: vcd::Vector) -> Seq<vcd::Value>;

/// Relies on `vcd::Vector::iter`: it yields the vector's scalars in order.
#[verifier::external_body]
pub(crate) fn vector_values(v: &vcd::Vector) -> (r: Vec<vcd::Value>)
    ensures
        r@ == vector_bits(*v),
{
    v.iter().collect()
}

} // verus!
