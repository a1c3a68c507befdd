use vstd::prelude::*;

verus! {

/// Loads a noise texture from `path` at start-up.
pub struct NoisePlugin {
    path: &'static str,
}

impl NoisePlugin {
    pub fn new(path: &'static str) -> (p: Self)
        ensures
            p.path() == path,
    {
        NoisePlugin { path }
    }

    /// Where the noise texture is loaded from.
    pub closed spec fn path(&self) -> &'static str {
        self.path
    }
}

/// The path of the noise texture, as a resource.
pub struct NoiseTexturePath(pub &'static str);

} // verus!
