use std::sync::Arc;
use vstd::prelude::*;

verus! {

/// A shared dependency as an instantiator receives it: the value cached in (or provided
/// for) the container it is resolved in.
pub struct Inject<Dep, const PREFER_SYNC_OVER_ASYNC: bool>(pub Arc<Dep>);

/// A dependency as an instantiator receives it when a new instance is made for each use.
pub struct InjectTransient<Dep, const PREFER_SYNC_OVER_ASYNC: bool>(pub Dep);

} // verus!
