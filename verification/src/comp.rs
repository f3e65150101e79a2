//! The compositor server aggregate and its surface, buffer and client
//! tracking.
//!
//! All protocol-visible state lives here: the client table, the surface
//! table with its subsurface tree, the shell toplevels, the bridged-window
//! table and the outbound task queue.  Clients, surfaces and toplevels are
//! identified by stable handles that index their tables; a destroyed entity
//! leaves an empty slot behind, so a stale handle answers "not found"
//! rather than aliasing a newer entity.

use vstd::prelude::*;

verus! {

use crate::queue::TaskQueue;
use crate::types::{Client, ClientKind, CompositorError, DisconnectReason, Surface, Toplevel};
use crate::types::BridgedWindow;

/// Deepest subsurface nesting the core tracks.  A deeper link is refused as
/// a client protocol violation; the bound also bounds the recursion of the
/// frame-callback traversal.
pub const MAX_NESTING: usize = 64;

/// Parent-to-child link consistency for one child `c` of the surface at
/// index `i`: the child slot is live, one level deeper, points back at its
/// parent, and belongs to the same client.
pub open spec fn child_link_ok(arena: Seq<Option<Surface>>, i: int, c: usize) -> bool {
    &&& (c as int) < arena.len()
    &&& arena[c as int] is Some
    &&& arena[c as int]->0.depth == arena[i]->0.depth + 1
    &&& arena[c as int]->0.parent == Some(i as usize)
    &&& arena[c as int]->0.client == arena[i]->0.client
}

/// Downward tree consistency of the surface at index `i`: its depth is
/// bounded and every child link is consistent.
pub open spec fn node_children_ok(arena: Seq<Option<Surface>>, i: int) -> bool {
    let s = arena[i]->0;
    &&& s.depth <= MAX_NESTING
    &&& forall|k: int|
        0 <= k < s.children@.len() ==> child_link_ok(arena, i, #[trigger] s.children@[k])
}

/// Downward tree consistency of a whole surface table.
pub open spec fn arena_tree_ok(arena: Seq<Option<Surface>>) -> bool {
    forall|i: int| 0 <= i < arena.len() && #[trigger] arena[i] is Some ==> node_children_ok(arena, i)
}

/// The compositor server: the root aggregate owning all protocol state of
/// one running session.
pub struct Application {
    /// Connected clients; a slot goes empty on disconnect.
    pub clients: Vec<Option<Client>>,
    /// All surfaces of the session; a slot goes empty when its surface is
    /// destroyed.
    pub surfaces: Vec<Option<Surface>>,
    /// Shell toplevels; a slot goes empty when the client destroys the
    /// shell object or disconnects.
    pub toplevels: Vec<Option<Toplevel>>,
    /// Bridged legacy-window-system windows, keyed by their foreign handle.
    pub windows: Vec<BridgedWindow>,
    /// Lifecycle events awaiting the external renderer.
    pub wayvr_tasks: TaskQueue,
}

impl Application {
    /// The client handle refers to a connected client.
    pub open spec fn client_live(self, c: usize) -> bool {
        c < self.clients@.len() && self.clients@[c as int] is Some
    }

    /// The client behind a live handle.
    pub open spec fn client_at(self, c: usize) -> Client {
        self.clients@[c as int]->0
    }

    /// The surface handle refers to an existing surface.
    pub open spec fn surface_live(self, s: usize) -> bool {
        s < self.surfaces@.len() && self.surfaces@[s as int] is Some
    }

    /// The surface behind a live handle.
    pub open spec fn surface_at(self, s: usize) -> Surface {
        self.surfaces@[s as int]->0
    }

    /// The toplevel handle refers to an existing toplevel.
    pub open spec fn toplevel_live(self, t: usize) -> bool {
        t < self.toplevels@.len() && self.toplevels@[t as int] is Some
    }

    /// The toplevel behind a live handle.
    pub open spec fn toplevel_at(self, t: usize) -> Toplevel {
        self.toplevels@[t as int]->0
    }

    /// The dirty set: identities of surfaces with an unconsumed commit,
    /// awaiting a redraw pass.
    pub open spec fn redraw_requests(self) -> Set<usize> {
        Set::new(|s: usize| self.surface_live(s) && self.surface_at(s).dirty)
    }

    /// Upward and local consistency of the surface at index `i`: it belongs
    /// to a connected client, a surface never committed has no deliverable
    /// callbacks, a subsurface is listed among its parent's children, a root
    /// sits at depth zero, and no child is listed twice.
    pub open spec fn surface_ok(self, i: int) -> bool {
        let s = self.surfaces@[i]->0;
        &&& self.client_live(s.client)
        &&& (!s.committed ==> s.queued_callbacks@.len() == 0)
        &&& match s.parent {
            Some(p) => {
                &&& (p as int) < self.surfaces@.len()
                &&& self.surfaces@[p as int] is Some
                &&& self.surfaces@[p as int]->0.children@.contains(i as usize)
            },
            None => s.depth == 0,
        }
        &&& forall|k1: int, k2: int|
            0 <= k1 < k2 < s.children@.len()
                ==> #[trigger] s.children@[k1] != #[trigger] s.children@[k2]
    }

    /// All surface slots are consistent.
    pub open spec fn surfaces_ok(self) -> bool {
        forall|i: int|
            0 <= i < self.surfaces@.len() && #[trigger] self.surfaces@[i] is Some
                ==> self.surface_ok(i)
    }

    /// Every toplevel wraps an existing surface of its own client.
    pub open spec fn toplevels_ok(self) -> bool {
        forall|t: int|
            0 <= t < self.toplevels@.len() && #[trigger] self.toplevels@[t] is Some ==> {
                &&& self.surface_live(self.toplevels@[t]->0.surface)
                &&& self.surface_at(self.toplevels@[t]->0.surface).client
                    == self.toplevels@[t]->0.client
            }
    }

    /// No two bridged-window entries share a foreign handle.
    pub open spec fn windows_ok(self) -> bool {
        forall|j1: int, j2: int|
            0 <= j1 < j2 < self.windows@.len()
                ==> (#[trigger] self.windows@[j1]).handle != (#[trigger] self.windows@[j2]).handle
    }

    /// Well-formedness of the whole aggregate; established by
    /// [`Application::new`] and preserved by every state transition.
    pub open spec fn wf(self) -> bool {
        &&& self.surfaces_ok()
        &&& arena_tree_ok(self.surfaces@)
        &&& self.toplevels_ok()
        &&& self.windows_ok()
    }

    /// A freshly started server: no clients, surfaces, toplevels or bridged
    /// windows, and an empty task queue.
    pub open spec fn is_initial(self) -> bool {
        &&& self.clients@.len() == 0
        &&& self.surfaces@.len() == 0
        &&& self.toplevels@.len() == 0
        &&& self.windows@.len() == 0
        &&& self.wayvr_tasks.items@.len() == 0
    }

    /// Creates a freshly started server.
    pub fn new() -> (r: Application)
        ensures
            r.wf(),
            r.is_initial(),
    {
        Application {
            clients: Vec::new(),
            surfaces: Vec::new(),
            toplevels: Vec::new(),
            windows: Vec::new(),
            wayvr_tasks: TaskQueue::new(),
        }
    }

    /// Accepts one connection.  The connection's classification — native
    /// socket or bridge-owned proxy — is resolved here, once, and stored on
    /// the client entity; lookups then return the stored variant instead of
    /// inspecting the connection again.
    pub fn on_connect(&mut self, kind: ClientKind) -> (id: usize)
        requires
            old(self).wf(),
        ensures
            final(self).wf(),
            id == old(self).clients@.len(),
            final(self).clients@ == old(self).clients@.push(Some(Client { kind })),
            final(self).surfaces@ == old(self).surfaces@,
            final(self).toplevels@ == old(self).toplevels@,
            final(self).windows@ == old(self).windows@,
            final(self).wayvr_tasks.items@ == old(self).wayvr_tasks.items@,
    {
        let id = self.clients.len();
        self.clients.push(Some(Client { kind }));
        proof {
            assert forall|i: int|
                0 <= i < self.surfaces@.len() && #[trigger] self.surfaces@[i] is Some
                    implies self.surface_ok(i) by {
                assert(old(self).surface_ok(i));
            }
        }
        id
    }

    /// Returns the per-client data variant for a connection, resolved from
    /// the classification fixed at accept time, or `None` for a handle that
    /// refers to no connected client.  A caller that expects one variant and
    /// receives the other has a programming error on its hands, not a
    /// recoverable condition: the connection-classification policy changed
    /// without this registry being updated.
    pub fn client_data_for(&self, client: usize) -> (r: Option<ClientKind>)
        ensures
            r == (if self.client_live(client) {
                Some(self.client_at(client).kind)
            } else {
                None::<ClientKind>
            }),
    {
        if client < self.clients.len() {
            match &self.clients[client] {
                Some(c) => Some(c.kind),
                None => None,
            }
        } else {
            None
        }
    }

    /// Disconnect hook: synchronously tears down everything the client
    /// owns — its surfaces and its toplevels — before returning, so no
    /// dangling reference survives into the next dispatched event.
    /// Subsequent queries about the client or its entities answer
    /// "not found" (see [`lemma_disconnect_queries_not_found`]).  The
    /// reason is recorded by the embedder's diagnostics; it does not change
    /// what is torn down.  Queued outbound tasks are never dropped here:
    /// the consumer remains responsible for checking liveness when it
    /// drains them.
    pub fn on_disconnect(&mut self, client: usize, _reason: DisconnectReason)
        requires
            old(self).wf(),
        ensures
            final(self).wf(),
            disconnect_rel(*old(self), *final(self), client),
    {
        let ghost pre = *self;
        let mut i: usize = 0;
        while i < self.surfaces.len()
            invariant
                i <= self.surfaces@.len(),
                self.clients@ == pre.clients@,
                self.toplevels@ == pre.toplevels@,
                self.windows@ == pre.windows@,
                self.wayvr_tasks.items@ == pre.wayvr_tasks.items@,
                self.surfaces@.len() == pre.surfaces@.len(),
                forall|j: int|
                    0 <= j < i ==> self.surfaces@[j] == (
                        if pre.surfaces@[j] is Some && pre.surfaces@[j]->0.client == client {
                        None::<Surface>
                    } else {
                        pre.surfaces@[j]
                    }),
                forall|j: int|
                    i <= j < pre.surfaces@.len() ==> self.surfaces@[j] == pre.surfaces@[j],
            decreases self.surfaces@.len() - i,
        {
            let owned = match &self.surfaces[i] {
                Some(s) => s.client == client,
                None => false,
            };
            if owned {
                let slot = &mut self.surfaces[i];
                *slot = None;
            }
            i = i + 1;
        }
        let mut t: usize = 0;
        while t < self.toplevels.len()
            invariant
                t <= self.toplevels@.len(),
                self.clients@ == pre.clients@,
                self.surfaces@.len() == pre.surfaces@.len(),
                forall|j: int|
                    0 <= j < pre.surfaces@.len() ==> self.surfaces@[j] == (
                        if pre.surfaces@[j] is Some && pre.surfaces@[j]->0.client == client {
                        None::<Surface>
                    } else {
                        pre.surfaces@[j]
                    }),
                self.windows@ == pre.windows@,
                self.wayvr_tasks.items@ == pre.wayvr_tasks.items@,
                self.toplevels@.len() == pre.toplevels@.len(),
                forall|j: int|
                    0 <= j < t ==> self.toplevels@[j] == (
                        if pre.toplevels@[j] is Some && pre.toplevels@[j]->0.client == client {
                        None::<Toplevel>
                    } else {
                        pre.toplevels@[j]
                    }),
                forall|j: int|
                    t <= j < pre.toplevels@.len() ==> self.toplevels@[j] == pre.toplevels@[j],
            decreases self.toplevels@.len() - t,
        {
            let owned = match &self.toplevels[t] {
                Some(tl) => tl.client == client,
                None => false,
            };
            if owned {
                let slot = &mut self.toplevels[t];
                *slot = None;
            }
            t = t + 1;
        }
        if client < self.clients.len() {
            let slot = &mut self.clients[client];
            *slot = None;
        }
        proof {
            self.lemma_disconnect_wf(pre, client);
        }
    }

    /// Removing one client's slot together with every surface and toplevel
    /// it owns preserves well-formedness: subsurface links never cross
    /// clients, so a surviving surface never points at a removed one.
    proof fn lemma_disconnect_wf(self, pre: Application, client: usize)
        requires
            pre.wf(),
            self.clients@.len() == pre.clients@.len(),
            forall|c: int|
                0 <= c < pre.clients@.len() && c != client as int
                    ==> self.clients@[c] == pre.clients@[c],
            (client as int) < pre.clients@.len() ==> self.clients@[client as int] is None,
            self.surfaces@.len() == pre.surfaces@.len(),
            forall|i: int|
                0 <= i < pre.surfaces@.len() ==> self.surfaces@[i] == (
                    if pre.surfaces@[i] is Some && pre.surfaces@[i]->0.client == client {
                    None::<Surface>
                } else {
                    pre.surfaces@[i]
                }),
            self.toplevels@.len() == pre.toplevels@.len(),
            forall|t: int|
                0 <= t < pre.toplevels@.len() ==> self.toplevels@[t] == (
                    if pre.toplevels@[t] is Some && pre.toplevels@[t]->0.client == client {
                    None::<Toplevel>
                } else {
                    pre.toplevels@[t]
                }),
            self.windows@ == pre.windows@,
        ensures
            self.wf(),
    {
        let arena = pre.surfaces@;
        assert(arena.len() <= usize::MAX) by {
            assert(pre.surfaces.len() == arena.len());
        }
        assert forall|i: int|
            0 <= i < self.surfaces@.len() && #[trigger] self.surfaces@[i] is Some
                implies self.surface_ok(i) by {
            assert(arena[i] is Some);
            assert(pre.surface_ok(i));
            let s = self.surfaces@[i]->0;
            assert(s == arena[i]->0);
            assert(s.client != client);
            match s.parent {
                Some(p) => {
                    let kids = arena[p as int]->0.children@;
                    assert(kids.contains(i as usize));
                    let kidx = choose|k: int| 0 <= k < kids.len() && kids[k] == i as usize;
                    assert(node_children_ok(arena, p as int));
                    assert(child_link_ok(arena, p as int, kids[kidx]));
                    assert((i as usize) as int == i);
                    assert(arena[p as int]->0.client == s.client);
                    assert(self.surfaces@[p as int] == arena[p as int]);
                },
                None => {},
            }
        }
        assert forall|i: int|
            0 <= i < self.surfaces@.len() && #[trigger] self.surfaces@[i] is Some
                implies node_children_ok(self.surfaces@, i) by {
            assert(pre.surfaces@[i] is Some);
            assert(node_children_ok(pre.surfaces@, i));
            let s = self.surfaces@[i]->0;
            assert forall|k: int|
                0 <= k < s.children@.len()
                    implies child_link_ok(self.surfaces@, i, #[trigger] s.children@[k]) by {
                assert(child_link_ok(pre.surfaces@, i, s.children@[k]));
                let c = s.children@[k];
                assert(pre.surfaces@[c as int]->0.client == pre.surfaces@[i]->0.client);
                assert(self.surfaces@[c as int] == pre.surfaces@[c as int]);
            }
        }
        assert forall|t: int|
            0 <= t < self.toplevels@.len() && #[trigger] self.toplevels@[t] is Some
                implies self.surface_live(self.toplevels@[t]->0.surface)
                    && self.surface_at(self.toplevels@[t]->0.surface).client
                        == self.toplevels@[t]->0.client by {
            assert(pre.toplevels@[t] is Some);
            let tl = self.toplevels@[t]->0;
            assert(tl == pre.toplevels@[t]->0);
            assert(tl.client != client);
            assert(pre.surface_live(tl.surface));
            assert(pre.surface_at(tl.surface).client == tl.client);
            assert(self.surfaces@[tl.surface as int] == pre.surfaces@[tl.surface as int]);
        }
    }
}

/// What one disconnect does: the client's slot and every surface and
/// toplevel it owned are emptied, everything of other clients and the
/// bridged-window table and the task queue are untouched.
pub open spec fn disconnect_rel(pre: Application, post: Application, client: usize) -> bool {
    &&& !post.client_live(client)
    &&& post.clients@.len() == pre.clients@.len()
    &&& forall|c: int|
        0 <= c < pre.clients@.len() && c != client as int
            ==> #[trigger] post.clients@[c] == pre.clients@[c]
    &&& post.surfaces@.len() == pre.surfaces@.len()
    &&& forall|i: int|
        0 <= i < pre.surfaces@.len() ==> #[trigger] post.surfaces@[i] == (
        if pre.surfaces@[i] is Some && pre.surfaces@[i]->0.client == client {
            None::<Surface>
        } else {
            pre.surfaces@[i]
        })
    &&& post.toplevels@.len() == pre.toplevels@.len()
    &&& forall|t: int|
        0 <= t < pre.toplevels@.len() ==> #[trigger] post.toplevels@[t] == (
        if pre.toplevels@[t] is Some && pre.toplevels@[t]->0.client == client {
            None::<Toplevel>
        } else {
            pre.toplevels@[t]
        })
    &&& post.windows@ == pre.windows@
    &&& post.wayvr_tasks.items@ == pre.wayvr_tasks.items@
}

/// Disconnecting a client removes all of its toplevels and surfaces: a
/// query about any entity it owned afterwards answers "not found" rather
/// than stale data, while every entity of another client is exactly as it
/// was.
pub proof fn lemma_disconnect_queries_not_found(
    pre: Application,
    post: Application,
    client: usize,
    s: usize,
    t: usize,
    s2: usize,
    t2: usize,
)
    requires
        disconnect_rel(pre, post, client),
        pre.surface_live(s) && pre.surface_at(s).client == client,
        pre.toplevel_live(t) && pre.toplevel_at(t).client == client,
        pre.surface_live(s2) && pre.surface_at(s2).client != client,
        pre.toplevel_live(t2) && pre.toplevel_at(t2).client != client,
    ensures
        !post.client_live(client),
        !post.surface_live(s),
        !post.toplevel_live(t),
        !post.redraw_requests().contains(s),
        post.surface_live(s2) && post.surface_at(s2) == pre.surface_at(s2),
        post.toplevel_live(t2) && post.toplevel_at(t2) == pre.toplevel_at(t2),
{
}

/// The surface-tree shape of a slot is untouched: owner, parent link,
/// child list and depth agree.
pub open spec fn tree_eq(a: Surface, b: Surface) -> bool {
    &&& a.client == b.client
    &&& a.parent == b.parent
    &&& a.children@ == b.children@
    &&& a.depth == b.depth
}

/// A transition that keeps every slot's tree shape, liveness and owner —
/// touching only buffers, callbacks and flags — preserves well-formedness,
/// provided no slot is left uncommitted with deliverable callbacks.
pub proof fn lemma_wf_preserved_pointwise(pre: Application, post: Application)
    requires
        pre.wf(),
        post.clients@ == pre.clients@,
        post.toplevels@ == pre.toplevels@,
        post.windows@ == pre.windows@,
        post.surfaces@.len() == pre.surfaces@.len(),
        forall|i: int|
            0 <= i < pre.surfaces@.len()
                ==> (#[trigger] post.surfaces@[i] is Some <==> pre.surfaces@[i] is Some),
        forall|i: int|
            0 <= i < pre.surfaces@.len() && pre.surfaces@[i] is Some
                ==> tree_eq(#[trigger] post.surfaces@[i]->0, pre.surfaces@[i]->0),
        forall|i: int|
            0 <= i < post.surfaces@.len() && post.surfaces@[i] is Some
                && !(#[trigger] post.surfaces@[i]->0.committed)
                ==> post.surfaces@[i]->0.queued_callbacks@.len() == 0,
    ensures
        post.wf(),
{
    assert forall|i: int|
        0 <= i < post.surfaces@.len() && #[trigger] post.surfaces@[i] is Some
            implies post.surface_ok(i) by {
        assert(pre.surfaces@[i] is Some);
        assert(pre.surface_ok(i));
        let s0 = pre.surfaces@[i]->0;
        let s1 = post.surfaces@[i]->0;
        match s1.parent {
            Some(p) => {
                assert(pre.surfaces@[p as int] is Some);
                assert(tree_eq(post.surfaces@[p as int]->0, pre.surfaces@[p as int]->0));
            },
            None => {},
        }
    }
    assert forall|i: int|
        0 <= i < post.surfaces@.len() && #[trigger] post.surfaces@[i] is Some
            implies node_children_ok(post.surfaces@, i) by {
        assert(pre.surfaces@[i] is Some);
        assert(node_children_ok(pre.surfaces@, i));
        let s1 = post.surfaces@[i]->0;
        assert forall|k: int|
            0 <= k < s1.children@.len()
                implies child_link_ok(post.surfaces@, i, #[trigger] s1.children@[k]) by {
            assert(child_link_ok(pre.surfaces@, i, s1.children@[k]));
            let c = s1.children@[k];
            assert(pre.surfaces@[c as int] is Some);
            assert(tree_eq(post.surfaces@[c as int]->0, pre.surfaces@[c as int]->0));
        }
    }
    assert forall|t: int|
        0 <= t < post.toplevels@.len() && #[trigger] post.toplevels@[t] is Some
            implies post.surface_live(post.toplevels@[t]->0.surface)
                && post.surface_at(post.toplevels@[t]->0.surface).client
                    == post.toplevels@[t]->0.client by {
        let tl = post.toplevels@[t]->0;
        assert(pre.surface_live(tl.surface));
        assert(tree_eq(post.surfaces@[tl.surface as int]->0, pre.surfaces@[tl.surface as int]->0));
    }
}

/// All state outside the surface slot `surface` is untouched.
pub open spec fn same_except_surface(pre: Application, post: Application, surface: usize) -> bool {
    &&& post.clients@ == pre.clients@
    &&& post.toplevels@ == pre.toplevels@
    &&& post.windows@ == pre.windows@
    &&& post.wayvr_tasks.items@ == pre.wayvr_tasks.items@
    &&& post.surfaces@.len() == pre.surfaces@.len()
    &&& forall|i: int|
        0 <= i < pre.surfaces@.len() && i != surface as int
            ==> #[trigger] post.surfaces@[i] == pre.surfaces@[i]
}

/// What one commit does.  When the surface exists: the pending buffer (if
/// any) is promoted to current, frame callbacks requested since the last
/// commit become deliverable behind those already queued, the surface is
/// marked committed and enters the dirty set.  A commit for an unknown
/// surface changes nothing.  Nothing outside the surface's slot changes
/// either way, so the transition is synchronous and complete before any
/// other handler observes it.
pub open spec fn commit_rel(pre: Application, post: Application, surface: usize) -> bool {
    &&& same_except_surface(pre, post, surface)
    &&& if pre.surface_live(surface) {
        let s0 = pre.surface_at(surface);
        let s1 = post.surface_at(surface);
        &&& post.surface_live(surface)
        &&& tree_eq(s1, s0)
        &&& s1.current_buffer == (if s0.pending_buffer is Some {
            s0.pending_buffer
        } else {
            s0.current_buffer
        })
        &&& s1.pending_buffer is None
        &&& s1.queued_callbacks@ == s0.queued_callbacks@ + s0.pending_callbacks@
        &&& s1.pending_callbacks@.len() == 0
        &&& s1.committed
        &&& s1.dirty
    } else {
        post.surfaces@ == pre.surfaces@
    }
}

/// What one redraw check does: it reports whether the surface sat in the
/// dirty set and removes it, so the query consumes the membership — a
/// second check before another commit answers false.  Nothing else
/// changes.
pub open spec fn check_redraw_rel(
    pre: Application,
    post: Application,
    surface: usize,
    r: bool,
) -> bool {
    &&& same_except_surface(pre, post, surface)
    &&& r == pre.redraw_requests().contains(surface)
    &&& if pre.surface_live(surface) {
        &&& post.surface_live(surface)
        &&& post.surface_at(surface) == (Surface { dirty: false, ..pre.surface_at(surface) })
    } else {
        post.surfaces@ == pre.surfaces@
    }
}

/// The checks guarding a subsurface link, in the order they are made:
/// both surfaces must exist, the child must be a fresh root without
/// children of its own, both must belong to one client, and the parent
/// must not already sit at the nesting limit.
pub open spec fn attach_check(pre: Application, parent: usize, child: usize) -> Result<
    (),
    CompositorError,
> {
    if !pre.surface_live(parent) || !pre.surface_live(child) {
        Err(CompositorError::NoSuchSurface)
    } else if parent == child {
        Err(CompositorError::NotAttachable)
    } else if !(pre.surface_at(child).parent is None) {
        Err(CompositorError::NotAttachable)
    } else if pre.surface_at(child).children@.len() != 0 {
        Err(CompositorError::NotAttachable)
    } else if pre.surface_at(child).client != pre.surface_at(parent).client {
        Err(CompositorError::NotAttachable)
    } else if pre.surface_at(parent).depth >= MAX_NESTING {
        Err(CompositorError::NestingTooDeep)
    } else {
        Ok(())
    }
}

/// The checks guarding surface destruction, in the order they are made:
/// the surface must exist, its subsurfaces must have been destroyed
/// before it, and no toplevel may still wrap it.
pub open spec fn destroy_check(pre: Application, surface: usize) -> Result<(), CompositorError> {
    if !pre.surface_live(surface) {
        Err(CompositorError::NoSuchSurface)
    } else if pre.surface_at(surface).children@.len() != 0 {
        Err(CompositorError::SurfaceInUse)
    } else if exists|t: int|
        0 <= t < pre.toplevels@.len() && #[trigger] pre.toplevels@[t] is Some
            && pre.toplevels@[t]->0.surface == surface {
        Err(CompositorError::SurfaceInUse)
    } else {
        Ok(())
    }
}

/// The successful outcome of a surface destruction: the slot is empty, a
/// subsurface has left its parent's child list — the list loses exactly
/// its one entry for the surface, order kept — and nothing else changes.
pub open spec fn destroy_ok_rel(pre: Application, post: Application, surface: usize) -> bool {
    &&& post.clients@ == pre.clients@
    &&& post.toplevels@ == pre.toplevels@
    &&& post.windows@ == pre.windows@
    &&& post.wayvr_tasks.items@ == pre.wayvr_tasks.items@
    &&& post.surfaces@.len() == pre.surfaces@.len()
    &&& post.surfaces@[surface as int] is None
    &&& match pre.surface_at(surface).parent {
        Some(p) => {
            &&& forall|i: int|
                0 <= i < pre.surfaces@.len() && i != surface as int && i != p as int
                    ==> #[trigger] post.surfaces@[i] == pre.surfaces@[i]
            &&& post.surfaces@[p as int] is Some
            &&& same_but_children(post.surface_at(p), pre.surface_at(p))
            &&& (exists|q: int|
                0 <= q < pre.surface_at(p).children@.len() && pre.surface_at(p).children@[q]
                    == surface && post.surface_at(p).children@ == pre.surface_at(
                    p,
                ).children@.remove(q))
        },
        None => forall|i: int|
            0 <= i < pre.surfaces@.len() && i != surface as int
                ==> #[trigger] post.surfaces@[i] == pre.surfaces@[i],
    }
}

/// Everything of a surface except its child list agrees.
pub open spec fn same_but_children(a: Surface, b: Surface) -> bool {
    &&& a.client == b.client
    &&& a.parent == b.parent
    &&& a.depth == b.depth
    &&& a.pending_buffer == b.pending_buffer
    &&& a.current_buffer == b.current_buffer
    &&& a.pending_callbacks@ == b.pending_callbacks@
    &&& a.queued_callbacks@ == b.queued_callbacks@
    &&& a.committed == b.committed
    &&& a.dirty == b.dirty
}

/// Everything of a surface except its parent link and depth agrees.
pub open spec fn same_but_link(a: Surface, b: Surface) -> bool {
    &&& a.client == b.client
    &&& a.children@ == b.children@
    &&& a.pending_buffer == b.pending_buffer
    &&& a.current_buffer == b.current_buffer
    &&& a.pending_callbacks@ == b.pending_callbacks@
    &&& a.queued_callbacks@ == b.queued_callbacks@
    &&& a.committed == b.committed
    &&& a.dirty == b.dirty
}

/// The successful outcome of a subsurface link: the child is appended to
/// the parent's child list and now points at the parent, one level deeper;
/// nothing else changes.
pub open spec fn attach_ok_rel(
    pre: Application,
    post: Application,
    parent: usize,
    child: usize,
) -> bool {
    &&& post.clients@ == pre.clients@
    &&& post.toplevels@ == pre.toplevels@
    &&& post.windows@ == pre.windows@
    &&& post.wayvr_tasks.items@ == pre.wayvr_tasks.items@
    &&& post.surfaces@.len() == pre.surfaces@.len()
    &&& forall|i: int|
        0 <= i < pre.surfaces@.len() && i != parent as int && i != child as int
            ==> #[trigger] post.surfaces@[i] == pre.surfaces@[i]
    &&& post.surface_live(parent)
    &&& post.surface_live(child)
    &&& post.surface_at(parent).children@ == pre.surface_at(parent).children@.push(child)
    &&& same_but_children(post.surface_at(parent), pre.surface_at(parent))
    &&& post.surface_at(child).parent == Some(parent)
    &&& post.surface_at(child).depth == pre.surface_at(parent).depth + 1
    &&& same_but_link(post.surface_at(child), pre.surface_at(child))
}

impl Application {
    /// Creates a surface for a connected client: a fresh root with no
    /// buffer, no callbacks, not yet committed and not awaiting redraw.
    /// Returns its stable handle, or refuses the request when the client
    /// handle refers to no connected client.
    pub fn create_surface(&mut self, client: usize) -> (r: Result<usize, CompositorError>)
        requires
            old(self).wf(),
        ensures
            final(self).wf(),
            if old(self).client_live(client) {
                &&& r == Ok::<usize, CompositorError>(old(self).surfaces@.len() as usize)
                &&& final(self).surfaces@.len() == old(self).surfaces@.len() + 1
                &&& forall|i: int|
                    0 <= i < old(self).surfaces@.len()
                        ==> #[trigger] final(self).surfaces@[i] == old(self).surfaces@[i]
                &&& final(self).surface_live(old(self).surfaces@.len() as usize)
                &&& ({
                    let s = final(self).surface_at(old(self).surfaces@.len() as usize);
                    &&& s.client == client
                    &&& s.parent is None
                    &&& s.children@.len() == 0
                    &&& s.depth == 0
                    &&& s.pending_buffer is None
                    &&& s.current_buffer is None
                    &&& s.pending_callbacks@.len() == 0
                    &&& s.queued_callbacks@.len() == 0
                    &&& !s.committed
                    &&& !s.dirty
                })
            } else {
                &&& r == Err::<usize, CompositorError>(CompositorError::NoSuchClient)
                &&& final(self).surfaces@ == old(self).surfaces@
            },
            final(self).clients@ == old(self).clients@,
            final(self).toplevels@ == old(self).toplevels@,
            final(self).windows@ == old(self).windows@,
            final(self).wayvr_tasks.items@ == old(self).wayvr_tasks.items@,
    {
        let connected = client < self.clients.len() && self.clients[client].is_some();
        if !connected {
            return Err(CompositorError::NoSuchClient);
        }
        let id = self.surfaces.len();
        self.surfaces.push(
            Some(
                Surface {
                    client,
                    parent: None,
                    children: Vec::new(),
                    depth: 0,
                    pending_buffer: None,
                    current_buffer: None,
                    pending_callbacks: Vec::new(),
                    queued_callbacks: Vec::new(),
                    committed: false,
                    dirty: false,
                },
            ),
        );
        proof {
            assert forall|i: int|
                0 <= i < self.surfaces@.len() && #[trigger] self.surfaces@[i] is Some
                    implies self.surface_ok(i) && node_children_ok(self.surfaces@, i) by {
                if i < old(self).surfaces@.len() {
                    assert(old(self).surfaces@[i] is Some);
                    assert(old(self).surface_ok(i));
                    assert(node_children_ok(old(self).surfaces@, i));
                    let s = self.surfaces@[i]->0;
                    match s.parent {
                        Some(p) => {
                            assert(old(self).surfaces@[p as int] is Some);
                        },
                        None => {},
                    }
                    assert forall|k: int|
                        0 <= k < s.children@.len()
                            implies child_link_ok(self.surfaces@, i, #[trigger] s.children@[k]) by {
                        assert(child_link_ok(old(self).surfaces@, i, s.children@[k]));
                    }
                }
            }
            assert forall|t: int|
                0 <= t < self.toplevels@.len() && #[trigger] self.toplevels@[t] is Some
                    implies self.surface_live(self.toplevels@[t]->0.surface)
                        && self.surface_at(self.toplevels@[t]->0.surface).client
                            == self.toplevels@[t]->0.client by {
                assert(old(self).toplevels@[t] is Some);
            }
        }
        Ok(id)
    }

    /// Performs the two slot updates of a subsurface link; the guarding
    /// checks are the caller's.
    fn link_child(&mut self, parent: usize, child: usize, p_depth: usize)
        requires
            old(self).surface_live(parent),
            old(self).surface_live(child),
            parent != child,
            p_depth == old(self).surface_at(parent).depth,
            p_depth < MAX_NESTING,
        ensures
            attach_ok_rel(*old(self), *final(self), parent, child),
    {
        let pslot = &mut self.surfaces[parent];
        match pslot {
            Some(p) => p.children.push(child),
            None => {},
        }
        let cslot = &mut self.surfaces[child];
        match cslot {
            Some(c) => {
                c.parent = Some(parent);
                c.depth = p_depth + 1;
            },
            None => {},
        }
    }

    /// Runs the checks of [`attach_check`], in their order.
    fn attach_guard(&self, parent: usize, child: usize) -> (r: Result<(), CompositorError>)
        ensures
            r == attach_check(*self, parent, child),
    {
        if parent >= self.surfaces.len() || child >= self.surfaces.len() {
            return Err(CompositorError::NoSuchSurface);
        }
        let (p_depth, p_client) = match &self.surfaces[parent] {
            Some(p) => (p.depth, p.client),
            None => {
                return Err(CompositorError::NoSuchSurface);
            },
        };
        let (c_root, c_leaf, c_client) = match &self.surfaces[child] {
            Some(c) => (c.parent.is_none(), c.children.len() == 0, c.client),
            None => {
                return Err(CompositorError::NoSuchSurface);
            },
        };
        if parent == child {
            return Err(CompositorError::NotAttachable);
        }
        if !c_root {
            return Err(CompositorError::NotAttachable);
        }
        if !c_leaf {
            return Err(CompositorError::NotAttachable);
        }
        if c_client != p_client {
            return Err(CompositorError::NotAttachable);
        }
        if p_depth >= MAX_NESTING {
            return Err(CompositorError::NestingTooDeep);
        }
        Ok(())
    }

    /// Links `child` under `parent` as a subsurface, at the end of the
    /// parent's child list.  Only a fresh root without children of its own
    /// and of the same client can be attached; the checks and their errors
    /// are exactly those of [`attach_check`].
    pub fn attach_subsurface(&mut self, parent: usize, child: usize) -> (r: Result<
        (),
        CompositorError,
    >)
        requires
            old(self).wf(),
        ensures
            final(self).wf(),
            r == attach_check(*old(self), parent, child),
            r is Ok ==> attach_ok_rel(*old(self), *final(self), parent, child),
            r is Err ==> *final(self) == *old(self),
    {
        match self.attach_guard(parent, child) {
            Ok(_) => {},
            Err(e) => {
                return Err(e);
            },
        }
        let p_depth = match &self.surfaces[parent] {
            Some(p) => p.depth,
            None => 0,
        };
        self.link_child(parent, child, p_depth);
        proof {
            self.lemma_attach_wf(*old(self), parent, child);
        }
        Ok(())
    }

    /// Appending a fresh root leaf under a live parent below the nesting
    /// limit preserves well-formedness.
    proof fn lemma_attach_wf(self, pre: Application, parent: usize, child: usize)
        requires
            pre.wf(),
            attach_check(pre, parent, child) is Ok,
            attach_ok_rel(pre, self, parent, child),
        ensures
            self.wf(),
    {
        let arena0 = pre.surfaces@;
        let arena1 = self.surfaces@;
        assert(arena0.len() <= usize::MAX) by {
            assert(pre.surfaces.len() == arena0.len());
        }
        let kids0 = pre.surface_at(parent).children@;
        let kids1 = self.surface_at(parent).children@;
        // The fresh child was never anyone's listed child: a listed child
        // carries a parent link, and the fresh child carried none.
        assert forall|i: int, k: int|
            0 <= i < arena0.len() && arena0[i] is Some && 0 <= k
                < arena0[i]->0.children@.len()
                implies #[trigger] arena0[i]->0.children@[k] != child by {
            assert(node_children_ok(arena0, i));
            assert(child_link_ok(arena0, i, arena0[i]->0.children@[k]));
        }
        assert forall|i: int|
            0 <= i < arena1.len() && #[trigger] arena1[i] is Some
                implies self.surface_ok(i) by {
            assert(arena0[i] is Some);
            assert(pre.surface_ok(i));
            let s1 = arena1[i]->0;
            let s0 = arena0[i]->0;
            if i == child as int {
                assert(s1.parent == Some(parent));
                assert(kids1 == kids0.push(child));
                assert(kids1[kids0.len() as int] == child);
                assert(kids1.contains(child));
                assert((child as int) == i);
            } else if i == parent as int {
                assert(s1.children@ == s0.children@.push(child));
                match s1.parent {
                    Some(p) => {
                        assert(arena0[p as int] is Some);
                        assert(arena0[p as int]->0.children@.contains(i as usize));
                        if p == parent {
                            let kx = choose|k: int|
                                0 <= k < kids0.len() && kids0[k] == i as usize;
                            assert(kids1[kx] == i as usize);
                            assert(kids1.contains(i as usize));
                        } else if p == child {
                            assert(arena0[p as int]->0.children@.len() == 0);
                            assert(false);
                        }
                    },
                    None => {},
                }
                assert forall|k1: int, k2: int|
                    0 <= k1 < k2 < s1.children@.len()
                        implies #[trigger] s1.children@[k1] != #[trigger] s1.children@[k2] by {
                    if k2 == s0.children@.len() {
                        assert(s1.children@[k1] == s0.children@[k1]);
                        assert(arena0[i]->0.children@[k1] != child);
                    }
                }
            } else {
                assert(s1 == s0);
                match s1.parent {
                    Some(p) => {
                        assert(arena0[p as int] is Some);
                        assert(arena0[p as int]->0.children@.contains(i as usize));
                        if p == parent {
                            let kx = choose|k: int|
                                0 <= k < kids0.len() && kids0[k] == i as usize;
                            assert(kids1[kx] == i as usize);
                            assert(kids1.contains(i as usize));
                        } else if p == child {
                            assert(arena0[p as int]->0.children@.len() == 0);
                            assert(false);
                        } else {
                            assert(arena1[p as int] == arena0[p as int]);
                        }
                    },
                    None => {},
                }
            }
        }
        assert forall|i: int|
            0 <= i < arena1.len() && #[trigger] arena1[i] is Some
                implies node_children_ok(arena1, i) by {
            assert(arena0[i] is Some);
            assert(node_children_ok(arena0, i));
            let s1 = arena1[i]->0;
            if i == child as int {
                assert(s1.children@.len() == 0);
                assert(s1.depth == pre.surface_at(parent).depth + 1);
                assert(pre.surface_at(parent).depth < MAX_NESTING);
            } else if i == parent as int {
                assert forall|k: int|
                    0 <= k < s1.children@.len()
                        implies child_link_ok(arena1, i, #[trigger] s1.children@[k]) by {
                    if k < kids0.len() {
                        assert(s1.children@[k] == kids0[k]);
                        assert(child_link_ok(arena0, i, kids0[k]));
                        let c = kids0[k];
                        assert(c != child);
                        if c == parent {
                            assert(arena0[c as int]->0.depth == arena0[i]->0.depth + 1);
                            assert(false);
                        }
                        assert(arena1[c as int] == arena0[c as int]);
                    } else {
                        assert(s1.children@[k] == child);
                        assert(self.surface_at(child).depth == s1.depth + 1);
                        assert(self.surface_at(child).parent == Some(parent));
                        assert(self.surface_at(child).client == s1.client);
                    }
                }
            } else {
                assert forall|k: int|
                    0 <= k < s1.children@.len()
                        implies child_link_ok(arena1, i, #[trigger] s1.children@[k]) by {
                    assert(child_link_ok(arena0, i, s1.children@[k]));
                    let c = s1.children@[k];
                    assert(c != child);
                    if c == parent {
                        assert(same_but_children(arena1[c as int]->0, arena0[c as int]->0));
                    } else {
                        assert(arena1[c as int] == arena0[c as int]);
                    }
                }
            }
        }
        assert forall|t: int|
            0 <= t < self.toplevels@.len() && #[trigger] self.toplevels@[t] is Some
                implies self.surface_live(self.toplevels@[t]->0.surface)
                    && self.surface_at(self.toplevels@[t]->0.surface).client
                        == self.toplevels@[t]->0.client by {
            let tl = self.toplevels@[t]->0;
            assert(pre.surface_live(tl.surface));
            assert(pre.surface_at(tl.surface).client == tl.client);
            if tl.surface == parent {
                assert(same_but_children(self.surface_at(parent), pre.surface_at(parent)));
            } else if tl.surface == child {
                assert(same_but_link(self.surface_at(child), pre.surface_at(child)));
            } else {
                assert(arena1[tl.surface as int] == arena0[tl.surface as int]);
            }
        }
    }

    /// A client attached a buffer to the surface (or detached, with
    /// `None`); the attachment is pending and takes effect at the next
    /// commit.
    pub fn attach_buffer(&mut self, surface: usize, buffer: Option<u64>) -> (r: Result<
        (),
        CompositorError,
    >)
        requires
            old(self).wf(),
        ensures
            final(self).wf(),
            same_except_surface(*old(self), *final(self), surface),
            if old(self).surface_live(surface) {
                &&& r == Ok::<(), CompositorError>(())
                &&& final(self).surface_live(surface)
                &&& final(self).surface_at(surface) == (Surface {
                    pending_buffer: buffer,
                    ..old(self).surface_at(surface)
                })
            } else {
                &&& r == Err::<(), CompositorError>(CompositorError::NoSuchSurface)
                &&& final(self).surfaces@ == old(self).surfaces@
            },
    {
        if surface >= self.surfaces.len() {
            return Err(CompositorError::NoSuchSurface);
        }
        let mut found = false;
        let slot = &mut self.surfaces[surface];
        match slot {
            Some(s) => {
                s.pending_buffer = buffer;
                found = true;
            },
            None => {},
        }
        if !found {
            proof {
                assert(self.surfaces@ =~= old(self).surfaces@);
            }
            return Err(CompositorError::NoSuchSurface);
        }
        proof {
            lemma_wf_preserved_pointwise(*old(self), *self);
        }
        Ok(())
    }

    /// A client asked to be notified when its content is next considered
    /// for presentation.  The callback queues behind the surface's earlier
    /// requests and becomes deliverable at the next commit.
    pub fn request_frame_callback(&mut self, surface: usize, callback: u64) -> (r: Result<
        (),
        CompositorError,
    >)
        requires
            old(self).wf(),
        ensures
            final(self).wf(),
            same_except_surface(*old(self), *final(self), surface),
            if old(self).surface_live(surface) {
                &&& r == Ok::<(), CompositorError>(())
                &&& final(self).surface_live(surface)
                &&& final(self).surface_at(surface).pending_callbacks@ == old(self).surface_at(
                    surface,
                ).pending_callbacks@.push(callback)
                &&& same_but_pending_callbacks(
                    final(self).surface_at(surface),
                    old(self).surface_at(surface),
                )
            } else {
                &&& r == Err::<(), CompositorError>(CompositorError::NoSuchSurface)
                &&& final(self).surfaces@ == old(self).surfaces@
            },
    {
        if surface >= self.surfaces.len() {
            return Err(CompositorError::NoSuchSurface);
        }
        let mut found = false;
        let slot = &mut self.surfaces[surface];
        match slot {
            Some(s) => {
                s.pending_callbacks.push(callback);
                found = true;
            },
            None => {},
        }
        if !found {
            proof {
                assert(self.surfaces@ =~= old(self).surfaces@);
            }
            return Err(CompositorError::NoSuchSurface);
        }
        proof {
            lemma_wf_preserved_pointwise(*old(self), *self);
        }
        Ok(())
    }

    /// A client committed the surface: see [`commit_rel`] for the complete
    /// effect.  The dirty-set insertion is idempotent — a surface already
    /// awaiting redraw simply stays in the set.
    pub fn commit(&mut self, surface: usize)
        requires
            old(self).wf(),
        ensures
            final(self).wf(),
            commit_rel(*old(self), *final(self), surface),
    {
        if surface < self.surfaces.len() {
            let slot = &mut self.surfaces[surface];
            match slot {
                Some(s) => {
                    if s.pending_buffer.is_some() {
                        s.current_buffer = s.pending_buffer;
                        s.pending_buffer = None;
                    }
                    let mut moved: Vec<u64> = Vec::new();
                    std::mem::swap(&mut moved, &mut s.pending_callbacks);
                    s.queued_callbacks.append(&mut moved);
                    s.committed = true;
                    s.dirty = true;
                },
                None => {},
            }
        }
        proof {
            lemma_wf_preserved_pointwise(*old(self), *self);
            if !old(self).surface_live(surface) {
                assert(self.surfaces@ =~= old(self).surfaces@);
            }
        }
    }

    /// The one-shot, consuming dirty-set query used by the redraw pass:
    /// reports whether the surface had an unconsumed commit and removes it
    /// from the set.  See [`check_redraw_rel`].
    pub fn check_redraw(&mut self, surface: usize) -> (r: bool)
        requires
            old(self).wf(),
        ensures
            final(self).wf(),
            check_redraw_rel(*old(self), *final(self), surface, r),
    {
        let mut was_dirty = false;
        if surface < self.surfaces.len() {
            let slot = &mut self.surfaces[surface];
            match slot {
                Some(s) => {
                    was_dirty = s.dirty;
                    s.dirty = false;
                },
                None => {},
            }
        }
        proof {
            lemma_wf_preserved_pointwise(*old(self), *self);
            if !old(self).surface_live(surface) {
                assert(self.surfaces@ =~= old(self).surfaces@);
            }
        }
        was_dirty
    }

    /// Whether the surface handle refers to an existing surface.
    pub fn surface_exists(&self, surface: usize) -> (r: bool)
        ensures
            r == self.surface_live(surface),
    {
        surface < self.surfaces.len() && self.surfaces[surface].is_some()
    }

    /// Non-consuming dirty-set membership, for observation only; the
    /// redraw pass itself must use [`Application::check_redraw`].
    pub fn surface_pending_redraw(&self, surface: usize) -> (r: bool)
        ensures
            r == self.redraw_requests().contains(surface),
    {
        if surface < self.surfaces.len() {
            match &self.surfaces[surface] {
                Some(s) => s.dirty,
                None => false,
            }
        } else {
            false
        }
    }

    /// The buffer made current by the latest commit of an existing
    /// surface.
    pub fn surface_current_buffer(&self, surface: usize) -> (r: Option<u64>)
        requires
            self.surface_live(surface),
        ensures
            r == self.surface_at(surface).current_buffer,
    {
        match &self.surfaces[surface] {
            Some(s) => s.current_buffer,
            None => None,
        }
    }

    /// How many frame callbacks of an existing surface are deliverable and
    /// not yet delivered.
    pub fn surface_queued_callback_count(&self, surface: usize) -> (r: usize)
        requires
            self.surface_live(surface),
        ensures
            r == self.surface_at(surface).queued_callbacks@.len(),
    {
        match &self.surfaces[surface] {
            Some(s) => s.queued_callbacks.len(),
            None => 0,
        }
    }

    /// Whether an existing surface has ever been committed.
    pub fn surface_committed(&self, surface: usize) -> (r: bool)
        requires
            self.surface_live(surface),
        ensures
            r == self.surface_at(surface).committed,
    {
        match &self.surfaces[surface] {
            Some(s) => s.committed,
            None => false,
        }
    }

    /// The parent of an existing surface, when it is a subsurface.
    pub fn surface_parent(&self, surface: usize) -> (r: Option<usize>)
        requires
            self.surface_live(surface),
        ensures
            r == self.surface_at(surface).parent,
    {
        match &self.surfaces[surface] {
            Some(s) => s.parent,
            None => None,
        }
    }

    /// A client destroyed the surface.  Subsurfaces must go first and a
    /// shell role must be given up first; the checks and their errors are
    /// exactly those of [`destroy_check`].  A destroyed subsurface leaves
    /// its parent's child list; the slot then answers "not found" and
    /// leaves the dirty set.
    pub fn destroy_surface(&mut self, surface: usize) -> (r: Result<(), CompositorError>)
        requires
            old(self).wf(),
        ensures
            final(self).wf(),
            r == destroy_check(*old(self), surface),
            r is Ok ==> destroy_ok_rel(*old(self), *final(self), surface),
            r is Err ==> *final(self) == *old(self),
    {
        if surface >= self.surfaces.len() {
            return Err(CompositorError::NoSuchSurface);
        }
        let (has_children, parent_opt) = match &self.surfaces[surface] {
            Some(s) => (s.children.len() > 0, s.parent),
            None => {
                return Err(CompositorError::NoSuchSurface);
            },
        };
        if has_children {
            return Err(CompositorError::SurfaceInUse);
        }
        let mut t: usize = 0;
        while t < self.toplevels.len()
            invariant
                *self == *old(self),
                old(self).wf(),
                old(self).surface_live(surface),
                old(self).surface_at(surface).children@.len() == 0,
                t <= self.toplevels@.len(),
                forall|j: int|
                    0 <= j < t ==> !(#[trigger] self.toplevels@[j] is Some
                        && self.toplevels@[j]->0.surface == surface),
            decreases self.toplevels@.len() - t,
        {
            let wraps = match &self.toplevels[t] {
                Some(tl) => tl.surface == surface,
                None => false,
            };
            if wraps {
                return Err(CompositorError::SurfaceInUse);
            }
            t = t + 1;
        }
        match parent_opt {
            Some(p) => {
                let ghost kids = old(self).surface_at(p).children@;
                proof {
                    assert(old(self).surface_ok(surface as int));
                    assert(kids.contains(surface));
                }
                let plen = match &self.surfaces[p] {
                    Some(ps) => ps.children.len(),
                    None => 0,
                };
                let mut q: usize = 0;
                let mut pos: usize = 0;
                let mut have = false;
                while q < plen
                    invariant
                        *self == *old(self),
                        (p as int) < self.surfaces@.len(),
                        self.surfaces@[p as int] is Some,
                        kids == self.surface_at(p).children@,
                        plen == kids.len(),
                        q <= plen,
                        have ==> (pos as int) < kids.len() && kids[pos as int] == surface,
                        !have ==> forall|k: int| 0 <= k < q ==> kids[k] != surface,
                    decreases plen - q,
                {
                    let is_it = match &self.surfaces[p] {
                        Some(ps) => ps.children[q] == surface,
                        None => false,
                    };
                    if is_it && !have {
                        pos = q;
                        have = true;
                    }
                    q = q + 1;
                }
                proof {
                    if !have {
                        let k = choose|k: int| 0 <= k < kids.len() && kids[k] == surface;
                        assert(false);
                    }
                }
                let pslot = &mut self.surfaces[p];
                match pslot {
                    Some(ps) => {
                        ps.children.remove(pos);
                    },
                    None => {},
                }
            },
            None => {},
        }
        let slot = &mut self.surfaces[surface];
        *slot = None;
        proof {
            self.lemma_destroy_wf(*old(self), surface);
        }
        Ok(())
    }

    /// Removing a childless, role-free surface — and its entry in its
    /// parent's child list — preserves well-formedness.
    proof fn lemma_destroy_wf(self, pre: Application, surface: usize)
        requires
            pre.wf(),
            destroy_check(pre, surface) is Ok,
            destroy_ok_rel(pre, self, surface),
        ensures
            self.wf(),
    {
        let arena0 = pre.surfaces@;
        let arena1 = self.surfaces@;
        assert(arena0.len() <= usize::MAX) by {
            assert(pre.surfaces.len() == arena0.len());
        }
        // The destroyed surface is listed nowhere but in its parent's
        // child list: a lister would have to be its parent.
        assert forall|i: int|
            0 <= i < arena0.len() && arena0[i] is Some && #[trigger] arena0[i]->0.children@.contains(
                surface,
            ) implies pre.surface_at(surface).parent == Some(i as usize) by {
            let kds = arena0[i]->0.children@;
            let kx = choose|k: int| 0 <= k < kds.len() && kds[k] == surface;
            assert(node_children_ok(arena0, i));
            assert(child_link_ok(arena0, i, kds[kx]));
        }
        match pre.surface_at(surface).parent {
            Some(p) => {
                let kids0 = pre.surface_at(p).children@;
                let kids1 = self.surface_at(p).children@;
                let q = choose|q: int|
                    0 <= q < kids0.len() && kids0[q] == surface && kids1 == kids0.remove(q);
                assert(kids1.len() == kids0.len() - 1);
                // Surviving values keep their membership and their links.
                assert forall|k: int| 0 <= k < kids1.len() implies #[trigger] kids1[k] == (
                if k < q {
                    kids0[k]
                } else {
                    kids0[k + 1]
                }) by {}
                assert forall|i: int|
                    0 <= i < arena1.len() && #[trigger] arena1[i] is Some
                        implies self.surface_ok(i) by {
                    assert(arena0[i] is Some);
                    assert(pre.surface_ok(i));
                    let s1 = arena1[i]->0;
                    match s1.parent {
                        Some(pp) => {
                            assert(s1.parent == arena0[i]->0.parent);
                            assert(arena0[pp as int]->0.children@.contains(i as usize));
                            assert(pp != surface) by {
                                if pp == surface {
                                    assert(arena0[surface as int]->0.children@.len() == 0);
                                }
                            }
                            if pp == p {
                                let kx = choose|k: int|
                                    0 <= k < kids0.len() && kids0[k] == i as usize;
                                assert(i != surface as int);
                                assert(kx != q);
                                if kx < q {
                                    assert(kids1[kx] == kids0[kx]);
                                    assert(kids1.contains(i as usize));
                                } else {
                                    assert(kids1[kx - 1] == kids0[kx]);
                                    assert(kids1.contains(i as usize));
                                }
                            } else {
                                assert(arena1[pp as int] == arena0[pp as int]);
                            }
                        },
                        None => {},
                    }
                    if i == p as int {
                        assert forall|k1: int, k2: int|
                            0 <= k1 < k2 < kids1.len()
                                implies #[trigger] kids1[k1] != #[trigger] kids1[k2] by {
                            let m1 = if k1 < q {
                                k1
                            } else {
                                k1 + 1
                            };
                            let m2 = if k2 < q {
                                k2
                            } else {
                                k2 + 1
                            };
                            assert(kids1[k1] == kids0[m1]);
                            assert(kids1[k2] == kids0[m2]);
                        }
                    }
                }
                assert forall|i: int|
                    0 <= i < arena1.len() && #[trigger] arena1[i] is Some
                        implies node_children_ok(arena1, i) by {
                    assert(arena0[i] is Some);
                    assert(node_children_ok(arena0, i));
                    let s1 = arena1[i]->0;
                    assert forall|k: int|
                        0 <= k < s1.children@.len()
                            implies child_link_ok(arena1, i, #[trigger] s1.children@[k]) by {
                        let c = s1.children@[k];
                        assert(child_link_ok(arena0, i, c)) by {
                            if i == p as int {
                                let m = if k < q {
                                    k
                                } else {
                                    k + 1
                                };
                                assert(s1.children@[k] == kids0[m]);
                            }
                        }
                        assert(c != surface) by {
                            if c == surface {
                                assert(arena0[c as int]->0.parent == Some(i as usize));
                                assert(i == p as int);
                                let m = if k < q {
                                    k
                                } else {
                                    k + 1
                                };
                                assert(kids0[m] == surface);
                                assert(kids0[q] == surface);
                                assert(m != q);
                            }
                        }
                        if c == p {
                            assert(same_but_children(arena1[c as int]->0, arena0[c as int]->0));
                        } else {
                            assert(arena1[c as int] == arena0[c as int]);
                        }
                    }
                }
            },
            None => {
                assert forall|i: int|
                    0 <= i < arena1.len() && #[trigger] arena1[i] is Some
                        implies self.surface_ok(i) by {
                    assert(arena0[i] is Some);
                    assert(pre.surface_ok(i));
                    let s1 = arena1[i]->0;
                    match s1.parent {
                        Some(pp) => {
                            assert(arena0[pp as int]->0.children@.contains(i as usize));
                            assert(pp != surface) by {
                                if pp == surface {
                                    assert(arena0[surface as int]->0.children@.len() == 0);
                                }
                            }
                            assert(arena1[pp as int] == arena0[pp as int]);
                        },
                        None => {},
                    }
                }
                assert forall|i: int|
                    0 <= i < arena1.len() && #[trigger] arena1[i] is Some
                        implies node_children_ok(arena1, i) by {
                    assert(arena0[i] is Some);
                    assert(node_children_ok(arena0, i));
                    let s1 = arena1[i]->0;
                    assert forall|k: int|
                        0 <= k < s1.children@.len()
                            implies child_link_ok(arena1, i, #[trigger] s1.children@[k]) by {
                        let c = s1.children@[k];
                        assert(child_link_ok(arena0, i, c));
                        assert(c != surface) by {
                            if c == surface {
                                assert(arena0[c as int]->0.parent == Some(i as usize));
                                assert(pre.surface_at(surface).parent is None);
                            }
                        }
                        assert(arena1[c as int] == arena0[c as int]);
                    }
                }
            },
        }
        assert forall|t: int|
            0 <= t < self.toplevels@.len() && #[trigger] self.toplevels@[t] is Some
                implies self.surface_live(self.toplevels@[t]->0.surface)
                    && self.surface_at(self.toplevels@[t]->0.surface).client
                        == self.toplevels@[t]->0.client by {
            let tl = self.toplevels@[t]->0;
            assert(pre.toplevels@[t] is Some);
            assert(tl.surface != surface);
            assert(pre.surface_live(tl.surface));
            assert(pre.surface_at(tl.surface).client == tl.client);
            match pre.surface_at(surface).parent {
                Some(p) => {
                    if tl.surface == p {
                        assert(same_but_children(self.surface_at(p), pre.surface_at(p)));
                    } else {
                        assert(self.surfaces@[tl.surface as int] == pre.surfaces@[tl.surface as int]);
                    }
                },
                None => {
                    assert(self.surfaces@[tl.surface as int] == pre.surfaces@[tl.surface as int]);
                },
            }
        }
    }

    /// Clipboard/drag stub: the server-side transfer callback of a
    /// drag-and-drop offer.  Accepted structurally and intentionally a
    /// no-op — clipboard interoperability is out of scope for this core,
    /// and the offered data is never read.
    pub fn send(&mut self, _mime_type: String)
        ensures
            *final(self) == *old(self),
    {
    }

    /// Seat hook: keyboard/pointer/touch focus changed.  Intentionally a
    /// no-op — focus is not tracked here because spatial pointer routing is
    /// computed and injected by the external collaborator, not derived
    /// from 2D focus state.
    pub fn focus_changed(&mut self, _focused: Option<usize>)
        ensures
            *final(self) == *old(self),
    {
    }

    /// Seat hook: a client proposed a cursor image (the surface carrying
    /// it, if any).  Intentionally ignored, as for
    /// [`Application::focus_changed`].
    pub fn cursor_image(&mut self, _surface: Option<usize>)
        ensures
            *final(self) == *old(self),
    {
    }

    /// Buffer bookkeeping hook: a client destroyed a buffer it had shared.
    /// Nothing is tracked per buffer beyond the attachments already
    /// recorded on surfaces, so nothing changes.
    pub fn buffer_destroyed(&mut self, _buffer: u64)
        ensures
            *final(self) == *old(self),
    {
    }
}

/// Everything of a surface except its requested (not yet committed) frame
/// callbacks agrees.
pub open spec fn same_but_pending_callbacks(a: Surface, b: Surface) -> bool {
    &&& a.client == b.client
    &&& a.parent == b.parent
    &&& a.children@ == b.children@
    &&& a.depth == b.depth
    &&& a.pending_buffer == b.pending_buffer
    &&& a.current_buffer == b.current_buffer
    &&& a.queued_callbacks@ == b.queued_callbacks@
    &&& a.committed == b.committed
    &&& a.dirty == b.dirty
}

/// After a commit of a surface, the redraw pass's one-shot query answers
/// true, and answers false when asked again before another commit: the
/// dirty-set membership created by the commit is consumed exactly once.
pub proof fn lemma_commit_then_redraw_once(
    s0: Application,
    s1: Application,
    s2: Application,
    s3: Application,
    surface: usize,
    r1: bool,
    r2: bool,
)
    requires
        s0.surface_live(surface),
        commit_rel(s0, s1, surface),
        check_redraw_rel(s1, s2, surface, r1),
        check_redraw_rel(s2, s3, surface, r2),
    ensures
        r1,
        !r2,
{
    assert(s1.surface_at(surface).dirty);
    assert(s1.redraw_requests().contains(surface));
    assert(!s2.surface_at(surface).dirty);
    assert(!s2.redraw_requests().contains(surface));
}

} // verus!
