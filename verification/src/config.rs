use vstd::prelude::*;

verus! {

/// Configuration of an instantiator: with `cache_provides`, the instance it provides is
/// cached and reused (only the instance itself, not its dependencies).
#[derive(Clone, Copy, Debug)]
pub struct Config {
    pub cache_provides: bool,
}

impl Default for Config {
    fn default() -> (r: Self)
        ensures
            r.cache_provides,
    {
        Config { cache_provides: true }
    }
}

} // verus!
