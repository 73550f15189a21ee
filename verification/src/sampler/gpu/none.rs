//! The backend used when no GPU was found.

use vstd::prelude::*;

verus! {

/// Stand-in GPU for systems where nothing was detected.
pub struct NoGpu {
    name: String,
}

impl NoGpu {
    /// The name shown for this backend.
    pub closed spec fn spec_name(&self) -> Seq<char> {
        self.name@
    }

    /// The no-GPU backend.
    pub fn new() -> (r: Self)
        ensures
            r.spec_name() == "No GPU detected"@,
    {
        Self { name: String::from_str("No GPU detected") }
    }

    /// Human-readable name shown in the popup.
    pub fn name(&self) -> (r: &str)
        ensures
            r@ == self.spec_name(),
    {
        self.name.as_str()
    }

    /// No PCI address: the empty string, which per-process readers refuse.
    pub fn pdev(&self) -> (r: &str)
        ensures
            r@ == Seq::<char>::empty(),
    {
        proof {
            reveal_strlit("");
        }
        ""
    }

    /// Never the NVIDIA backend.
    pub fn is_nvidia(&self) -> (r: bool)
        ensures
            !r,
    {
        false
    }
}

impl Default for NoGpu {
    fn default() -> (r: Self)
        ensures
            r.spec_name() == "No GPU detected"@,
    {
        Self::new()
    }
}

} // verus!
