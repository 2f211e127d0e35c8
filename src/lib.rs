//! Column-oriented storage for entities that share one set of component
//! types, with a reader/writer guard for the columns.
use vstd::prelude::*;

pub mod archetype;
pub mod borrow;
pub mod layout;

pub use archetype::{Archetype, EntityComponentSet, TypeInfo};
pub use borrow::AtomicBorrow;
pub use layout::{Layout, align};

verus! {

} // verus!
