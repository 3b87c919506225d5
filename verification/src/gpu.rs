//! Whether hashing is handed to a graphics processor.
use vstd::prelude::*;

verus! {

/// Whether a graphics processor can be used: there is none here.
pub fn metal_available() -> (r: bool)
    ensures
        !r,
{
    false
}

/// The choice to hash on the graphics processor, off until it is switched on.
#[derive(Clone, Copy, Debug, PartialEq, Eq, Structural)]
pub struct GpuSwitch {
    pub enabled: bool,
}

impl GpuSwitch {
    pub fn new() -> (r: GpuSwitch)
        ensures
            !r.enabled,
    {
        GpuSwitch { enabled: false }
    }
}

/// Switches hashing on the graphics processor on or off.
pub fn set_gpu_enabled(switch: &mut GpuSwitch, enabled: bool)
    ensures
        final(switch).enabled == enabled,
{
    switch.enabled = enabled;
}

/// Whether hashing on the graphics processor is switched on.
pub fn gpu_enabled(switch: &GpuSwitch) -> (r: bool)
    ensures
        r == switch.enabled,
{
    switch.enabled
}

/// What became of a request for the graphics processor.
#[derive(Clone, Copy, Debug, PartialEq, Eq, Structural)]
pub enum GpuChoice {
    Unrequested,
    Enabled,
    Unavailable,
}

/// Switches hashing on the graphics processor on where it is asked for and available.
pub fn configure_gpu(switch: &mut GpuSwitch, requested: bool, available: bool) -> (r: GpuChoice)
    ensures
        final(switch).enabled == (old(switch).enabled || requested && available),
        r == if !requested {
            GpuChoice::Unrequested
        } else if available {
            GpuChoice::Enabled
        } else {
            GpuChoice::Unavailable
        },
{
    if !requested {
        return GpuChoice::Unrequested;
    }
    if available {
        set_gpu_enabled(switch, true);
        GpuChoice::Enabled
    } else {
        GpuChoice::Unavailable
    }
}

} // verus!
