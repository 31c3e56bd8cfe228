use vstd::prelude::*;

pub mod code;
pub mod expand;
pub mod library;
pub mod text;

verus! {

} // verus!
