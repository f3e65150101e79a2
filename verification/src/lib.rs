//! Core of a minimal, embeddable display-server compositor.
//!
//! The crate models the protocol-facing state of the compositor on plain
//! values: connected clients, their surfaces with pending and current buffer
//! attachments, queued frame-completion callbacks, subsurface trees, shell
//! toplevels, the bridged legacy-window-system state machine, and the
//! outbound task queue drained by an external renderer.  Every state
//! transition is a verified function with a contract; the wire-protocol
//! dispatch, GPU import and process plumbing live outside the library and
//! drive it through these functions.

use vstd::prelude::*;

pub mod types;
pub mod queue;
pub mod comp;
pub mod shell;
pub mod bridge;
pub mod frames;
pub mod input;

verus! {

use crate::comp::Application;

/// Per-overlay backend payload used by the 2D preview harness; it carries no
/// state of its own.
#[derive(Default)]
pub struct StubOverlayData {}

/// A running compositor session: the protocol state together with the size of
/// the composited output handed to the external renderer.
pub struct WayVRContext {
    /// The compositor server state.
    pub wayvr: Application,
    /// Width in pixels of the composited output.
    pub width: u32,
    /// Height in pixels of the composited output.
    pub height: u32,
}

impl WayVRContext {
    /// Starts a fresh session of the given output size: no clients, no
    /// surfaces, no windows, and an empty outbound task queue.
    pub fn new(width: u32, height: u32) -> (r: WayVRContext)
        ensures
            r.wayvr.wf(),
            r.wayvr.is_initial(),
            r.width == width,
            r.height == height,
    {
        WayVRContext { wayvr: Application::new(), width, height }
    }
}

} // verus!
