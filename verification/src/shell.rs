//! The shell protocol handler: toplevel lifecycle and the popup stubs.

use vstd::prelude::*;

verus! {

use crate::comp::Application;
use crate::types::{CompositorError, Geometry, Toplevel, ToplevelConfigure, WayVRTask};

/// What one `new_toplevel` call does: when the surface exists, a toplevel
/// wrapping it is created with activation granted, a `NewToplevel` task
/// tagged with the owning client is queued, and the configure event owed to
/// the client is returned; when it does not, nothing changes.
pub open spec fn new_toplevel_rel(
    pre: Application,
    post: Application,
    surface: usize,
    r: Result<ToplevelConfigure, CompositorError>,
) -> bool {
    &&& post.clients@ == pre.clients@
    &&& post.surfaces@ == pre.surfaces@
    &&& post.windows@ == pre.windows@
    &&& if pre.surface_live(surface) {
        let id = pre.toplevels@.len() as usize;
        let client = pre.surface_at(surface).client;
        &&& r == Ok::<ToplevelConfigure, CompositorError>(
            ToplevelConfigure { toplevel: id, activated: true },
        )
        &&& post.toplevels@ == pre.toplevels@.push(
            Some(Toplevel { surface, client, activated: true }),
        )
        &&& post.wayvr_tasks.items@ == pre.wayvr_tasks.items@.push(
            WayVRTask::NewToplevel(client, id),
        )
    } else {
        &&& r == Err::<ToplevelConfigure, CompositorError>(CompositorError::NoSuchSurface)
        &&& post.toplevels@ == pre.toplevels@
        &&& post.wayvr_tasks.items@ == pre.wayvr_tasks.items@
    }
}

impl Application {
    /// A client requested a new top-level window for `surface`.
    ///
    /// This server assumes a single focused window per visible session, so
    /// every new toplevel is granted activation on creation.  The returned
    /// configure event must be sent to the client; the queued `NewToplevel`
    /// task lets the external renderer decide, out of protocol, how and
    /// where to place the window's texture.
    pub fn new_toplevel(&mut self, surface: usize) -> (r: Result<
        ToplevelConfigure,
        CompositorError,
    >)
        requires
            old(self).wf(),
        ensures
            final(self).wf(),
            new_toplevel_rel(*old(self), *final(self), surface, r),
    {
        if surface >= self.surfaces.len() {
            return Err(CompositorError::NoSuchSurface);
        }
        let client = match &self.surfaces[surface] {
            Some(s) => s.client,
            None => {
                return Err(CompositorError::NoSuchSurface);
            },
        };
        let id = self.toplevels.len();
        self.toplevels.push(Some(Toplevel { surface, client, activated: true }));
        self.wayvr_tasks.send(WayVRTask::NewToplevel(client, id));
        proof {
            assert forall|t: int|
                0 <= t < self.toplevels@.len() && #[trigger] self.toplevels@[t] is Some
                    implies self.surface_live(self.toplevels@[t]->0.surface)
                        && self.surface_at(self.toplevels@[t]->0.surface).client
                            == self.toplevels@[t]->0.client by {
                if t < old(self).toplevels@.len() {
                    assert(old(self).toplevels@[t] is Some);
                }
            }
        }
        Ok(ToplevelConfigure { toplevel: id, activated: true })
    }

    /// A client destroyed the shell object of `toplevel`; the slot is
    /// released and later queries answer "not found".  The wrapped surface
    /// stays: its lifetime is the client's, not the shell object's.
    pub fn destroy_toplevel(&mut self, toplevel: usize) -> (r: Result<(), CompositorError>)
        requires
            old(self).wf(),
        ensures
            final(self).wf(),
            final(self).clients@ == old(self).clients@,
            final(self).surfaces@ == old(self).surfaces@,
            final(self).windows@ == old(self).windows@,
            final(self).wayvr_tasks.items@ == old(self).wayvr_tasks.items@,
            final(self).toplevels@.len() == old(self).toplevels@.len(),
            forall|t: int|
                0 <= t < old(self).toplevels@.len() && t != toplevel as int
                    ==> final(self).toplevels@[t] == old(self).toplevels@[t],
            if old(self).toplevel_live(toplevel) {
                &&& r == Ok::<(), CompositorError>(())
                &&& !final(self).toplevel_live(toplevel)
            } else {
                &&& r == Err::<(), CompositorError>(CompositorError::NoSuchToplevel)
                &&& final(self).toplevels@ == old(self).toplevels@
            },
    {
        if toplevel >= self.toplevels.len() {
            return Err(CompositorError::NoSuchToplevel);
        }
        let live = self.toplevels[toplevel].is_some();
        if !live {
            return Err(CompositorError::NoSuchToplevel);
        }
        let slot = &mut self.toplevels[toplevel];
        *slot = None;
        Ok(())
    }

    /// The toplevel behind a handle, or `None` when the handle refers to no
    /// existing toplevel.
    pub fn toplevel_info(&self, toplevel: usize) -> (r: Option<Toplevel>)
        ensures
            r == (if self.toplevel_live(toplevel) {
                Some(self.toplevel_at(toplevel))
            } else {
                None::<Toplevel>
            }),
    {
        if toplevel < self.toplevels.len() {
            self.toplevels[toplevel]
        } else {
            None
        }
    }

    /// A client created a popup.  Accepted as a valid request and
    /// intentionally a no-op: popups are not composited or positioned by
    /// this server instance.  An implementation replacing this stub must
    /// still acknowledge the request so well-behaved clients do not stall.
    pub fn new_popup(&mut self, _surface: usize, _positioner: Geometry)
        ensures
            *final(self) == *old(self),
    {
    }

    /// A client asked for a popup grab.  Accepted and intentionally a
    /// no-op, as for [`Application::new_popup`].
    pub fn grab(&mut self, _surface: usize, _serial: u32)
        ensures
            *final(self) == *old(self),
    {
    }

    /// A client asked to reposition a popup.  Accepted and intentionally a
    /// no-op, as for [`Application::new_popup`].
    pub fn reposition_request(&mut self, _surface: usize, _positioner: Geometry, _token: u32)
        ensures
            *final(self) == *old(self),
    {
    }
}

} // verus!
