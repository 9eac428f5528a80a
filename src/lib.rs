use vstd::prelude::*;

pub mod roundtrip;
pub mod text;
pub mod translate;
pub mod tree;
pub mod write;

verus! {

} // verus!
