//! Plain-value data model shared by the compositor modules.

use vstd::prelude::*;

verus! {

/// How a connection was established, resolved once at connection-accept time
/// and stored on the client entity.
#[derive(Clone, Copy, Debug, PartialEq, Eq, Structural)]
pub enum ClientKind {
    /// A client speaking the native windowing protocol over a direct socket.
    Native,
    /// A proxy connection owned by the legacy-window-system bridge.
    Bridged,
}

/// Why a client connection ended.
#[derive(Clone, Copy, Debug, PartialEq, Eq, Structural)]
pub enum DisconnectReason {
    /// The client closed its connection on its own.
    Voluntary,
    /// The server severed the connection after a malformed or out-of-order
    /// request.
    ProtocolViolation,
}

/// One connected peer.
#[derive(Clone, Copy, Debug, PartialEq, Eq, Structural)]
pub struct Client {
    /// Classification fixed at connection-accept time.
    pub kind: ClientKind,
}

/// A client-owned drawable. Surfaces form a tree through subsurface links;
/// buffer attachments and frame callbacks are double-buffered: they take
/// effect at commit time.
#[derive(Debug)]
pub struct Surface {
    /// Identity of the owning client (index into the client table).
    pub client: usize,
    /// Parent surface when this surface is a subsurface.
    pub parent: Option<usize>,
    /// Subsurfaces, in the order they were attached.
    pub children: Vec<usize>,
    /// Distance from the root of this surface's tree.
    pub depth: usize,
    /// Buffer attached since the last commit, applied at the next commit.
    pub pending_buffer: Option<u64>,
    /// Buffer made current by the latest commit.
    pub current_buffer: Option<u64>,
    /// Frame callbacks requested since the last commit, in request order.
    pub pending_callbacks: Vec<u64>,
    /// Frame callbacks made deliverable by commits and not yet delivered,
    /// in queued order.
    pub queued_callbacks: Vec<u64>,
    /// Whether the surface has ever been committed.
    pub committed: bool,
    /// Whether the surface awaits a redraw pass (membership in the dirty set).
    pub dirty: bool,
}

/// A shell-protocol toplevel window wrapping exactly one surface.
#[derive(Clone, Copy, Debug, PartialEq, Eq, Structural)]
pub struct Toplevel {
    /// The wrapped surface (index into the surface table).
    pub surface: usize,
    /// Identity of the owning client.
    pub client: usize,
    /// Window-activation flag; granted on creation.
    pub activated: bool,
}

/// Geometry of a bridged window: position and size.
#[derive(Clone, Copy, Debug, PartialEq, Eq, Structural)]
pub struct Geometry {
    pub x: i32,
    pub y: i32,
    pub w: u32,
    pub h: u32,
}

/// Lifecycle state of a bridged legacy-window-system window.
#[derive(Clone, Copy, Debug, PartialEq, Eq, Structural)]
pub enum WindowState {
    /// Registered but not shown.
    Unmapped,
    /// A map was requested and awaits acknowledgment; this core acknowledges
    /// immediately, so the state is only ever passed through, never held.
    MapRequested,
    /// Shown; the owning client is the source of truth for pixel content.
    Mapped,
    /// Released from tracking; the numeric handle may be registered anew.
    Destroyed,
}

/// A legacy-window-system counterpart of a toplevel, identified by a foreign
/// numeric handle and driven by bridge-originated events.
#[derive(Clone, Copy, Debug, PartialEq, Eq, Structural)]
pub struct BridgedWindow {
    /// Foreign numeric handle assigned by the legacy window system.
    pub handle: u32,
    /// Current geometry; authoritative only while unmapped or during a
    /// resize negotiation.
    pub geometry: Geometry,
    /// Whether the window bypasses managed placement.
    pub override_redirect: bool,
    /// Lifecycle state.
    pub state: WindowState,
}

/// A lifecycle event carried from protocol callbacks to the external
/// renderer's poll loop.
#[derive(Clone, Copy, Debug, PartialEq, Eq, Structural)]
pub enum WayVRTask {
    /// A client created a toplevel: owning client identity and the toplevel.
    NewToplevel(usize, usize),
}

/// The configure event owed to a client right after its toplevel is created.
#[derive(Clone, Copy, Debug, PartialEq, Eq, Structural)]
pub struct ToplevelConfigure {
    /// The toplevel the event is about.
    pub toplevel: usize,
    /// Activation granted to the new toplevel.
    pub activated: bool,
}

/// One frame-completion notification owed to a client: the callback to
/// invoke and the timestamp to hand it.
#[derive(Clone, Copy, Debug, PartialEq, Eq, Structural)]
pub struct FrameDone {
    /// The queued callback being completed.
    pub callback: u64,
    /// Presentation timestamp passed through to the client.
    pub time: u32,
}

/// Errors surfaced by the verified core.
///
/// `NoSuchClient`, `NoSuchSurface`, `NoSuchToplevel`, `NotAttachable` and
/// `NestingTooDeep` are client protocol violations: the caller resolves them
/// by disconnecting the offending client only.  `BridgeInconsistency` is a
/// fatal invariant violation: the bridge referenced an untracked window on a
/// call path where it contractually guarantees liveness, and the session must
/// terminate.
#[derive(Clone, Copy, Debug, PartialEq, Eq, Structural)]
pub enum CompositorError {
    /// A request named a client that is not connected.
    NoSuchClient,
    /// A request named a surface that does not exist.
    NoSuchSurface,
    /// A request named a toplevel that does not exist.
    NoSuchToplevel,
    /// A subsurface link was requested for a surface that cannot take it.
    NotAttachable,
    /// A surface still carries subsurfaces or a shell role and cannot be
    /// destroyed yet.
    SurfaceInUse,
    /// A subsurface link would nest surfaces deeper than the core supports.
    NestingTooDeep,
    /// The bridge referenced an untracked window where it guarantees
    /// liveness.
    BridgeInconsistency,
}

} // verus!
