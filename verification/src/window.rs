//! The decision of the window's event loop.
use vstd::prelude::*;

verus! {

/// The events the window's loop tells apart.
#[derive(Debug, Clone, Copy, PartialEq, Eq, Structural)]
pub enum WindowSignal {
    /// The user asked to close the window.
    CloseRequested,
    /// Any other event.
    Other,
}

/// What the event loop does next.
#[derive(Debug, Clone, Copy, PartialEq, Eq, Structural)]
pub enum LoopControl {
    /// Sleep until the next event.
    Wait,
    /// Leave the loop, closing the window.
    Exit,
}

/// The loop waits for the next event, and exits once closing is asked for.
pub fn control_after(signal: WindowSignal) -> (c: LoopControl)
    ensures
        c == LoopControl::Exit <==> signal == WindowSignal::CloseRequested,
        c == LoopControl::Wait <==> signal == WindowSignal::Other,
{
    match signal {
        WindowSignal::CloseRequested => LoopControl::Exit,
        WindowSignal::Other => LoopControl::Wait,
    }
}

} // verus!
