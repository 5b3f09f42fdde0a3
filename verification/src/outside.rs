//! Outside types that the library carries through without looking inside.
use vstd::prelude::*;

verus! {

#[verifier::external_type_specification]
#[verifier::external_body]
pub struct ExRonNumber(ron::Number);

} // verus!

verus! {

#[verifier::external_type_specification]
#[verifier::external_body]
pub struct ExRonValue(ron::Value);

} // verus!
