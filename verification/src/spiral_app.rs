//! The state of the countdown window.

use vstd::prelude::*;

verus! {

/// The countdown window. It shows the spiral and the clock ticks; custom events
/// are not shown yet, so it is only made without them.
#[derive(Debug)]
pub struct SpiralApp {}

impl SpiralApp {
    /// The window for `events`, which must be empty: showing custom events is
    /// not supported yet.
    pub fn new(events: Vec<(jiff::Zoned, String)>) -> (r: SpiralApp)
        requires
            events.len() == 0,
    {
        SpiralApp {}
    }
}

} // verus!
