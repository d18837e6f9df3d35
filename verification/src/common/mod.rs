//! Small value types shared by the tables and the engine.

pub mod color;
pub mod coordinate;
pub mod defaultdict;
pub mod rotation;
pub mod traits;

use vstd::prelude::*;

verus! {

/// The text that was offered where the name of a variant was expected.
#[derive(Clone, Debug, Hash, PartialEq, Eq)]
pub struct UnknownVariant(pub String);

} // verus!
