use vstd::prelude::*;

verus! {

/// Handle on the acceleration context of the active device.
pub struct GpuContext {
    pub enabled: bool,
}

impl GpuContext {
    /// Creates a context with acceleration switched on.
    pub fn new() -> (ctx: Self)
        ensures
            ctx.enabled,
    {
        GpuContext { enabled: true }
    }

    /// Whether acceleration is available on the active device.
    pub fn is_accelerated(&self) -> (b: bool)
        ensures
            b == self.enabled,
    {
        self.enabled
    }
}

impl Default for GpuContext {
    fn default() -> (ctx: Self)
        ensures
            ctx.enabled,
    {
        GpuContext::new()
    }
}

} // verus!
