use vstd::prelude::*;

use crate::any::TypeInfo;

verus! {

/// A type that an instantiator needs resolved before it can run.
#[derive(Clone, Copy, Debug)]
pub struct Dependency {
    pub type_info: TypeInfo,
}

} // verus!
