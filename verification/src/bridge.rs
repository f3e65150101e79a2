//! The legacy-window-system bridge: a per-window lifecycle state machine
//! reconciling a second, independently-timed event source against the
//! native surface graph.
//!
//! Bridged windows are identified by a foreign numeric handle chosen by the
//! legacy window system, so the table is searched rather than indexed.  A
//! destroyed window's entry stays behind in the `Destroyed` state, which
//! answers "not tracked"; the legacy system may then register the same
//! numeric handle anew.

use vstd::prelude::*;

verus! {

use crate::comp::{node_children_ok, Application};
use crate::types::{BridgedWindow, CompositorError, Geometry, WindowState};

/// First index whose entry carries `handle`, or `-1` when none does.
pub open spec fn win_search(wins: Seq<BridgedWindow>, handle: u32) -> int
    decreases wins.len(),
{
    if wins.len() == 0 {
        -1
    } else if wins[0].handle == handle {
        0
    } else {
        let r = win_search(wins.drop_first(), handle);
        if r < 0 {
            -1
        } else {
            r + 1
        }
    }
}

/// `win_search` finds the first matching entry, and finds one whenever one
/// exists.
pub proof fn lemma_win_search_props(wins: Seq<BridgedWindow>, handle: u32)
    ensures
        win_search(wins, handle) < wins.len(),
        win_search(wins, handle) >= 0 ==> wins[win_search(wins, handle)].handle == handle,
        forall|k: int| 0 <= k < win_search(wins, handle) ==> wins[k].handle != handle,
        win_search(wins, handle) < 0 ==> win_search(wins, handle) == -1,
        win_search(wins, handle) < 0 ==> (forall|k: int|
            0 <= k < wins.len() ==> wins[k].handle != handle),
    decreases wins.len(),
{
    if wins.len() == 0 {
    } else if wins[0].handle == handle {
    } else {
        lemma_win_search_props(wins.drop_first(), handle);
        let r = win_search(wins.drop_first(), handle);
        assert forall|k: int| 0 <= k < win_search(wins, handle) implies wins[k].handle != handle by {
            if k > 0 {
                assert(wins.drop_first()[k - 1] == wins[k]);
            }
        }
        if r < 0 {
            assert forall|k: int| 0 <= k < wins.len() implies wins[k].handle != handle by {
                if k > 0 {
                    assert(wins.drop_first()[k - 1] == wins[k]);
                }
            }
        }
    }
}

/// Replacing an entry by one with the same handle does not move the first
/// match of any handle.
pub proof fn lemma_win_search_update(wins: Seq<BridgedWindow>, j: int, e: BridgedWindow, handle: u32)
    requires
        0 <= j < wins.len(),
        wins[j].handle == e.handle,
    ensures
        win_search(wins.update(j, e), handle) == win_search(wins, handle),
    decreases wins.len(),
{
    let w2 = wins.update(j, e);
    if j == 0 {
        assert(w2[0].handle == wins[0].handle);
        if wins[0].handle != handle {
            assert(w2.drop_first() =~= wins.drop_first());
        }
    } else {
        assert(w2[0] == wins[0]);
        if wins[0].handle != handle {
            assert(w2.drop_first() =~= wins.drop_first().update(j - 1, e));
            lemma_win_search_update(wins.drop_first(), j - 1, e, handle);
        }
    }
}

/// Appending an entry leaves every earlier first match in place; a handle
/// with no earlier match is found at the end exactly when the new entry
/// carries it.
pub proof fn lemma_win_search_push(wins: Seq<BridgedWindow>, e: BridgedWindow, handle: u32)
    ensures
        win_search(wins.push(e), handle) == (if win_search(wins, handle) >= 0 {
            win_search(wins, handle)
        } else if e.handle == handle {
            wins.len() as int
        } else {
            -1int
        }),
    decreases wins.len(),
{
    let w2 = wins.push(e);
    if wins.len() == 0 {
        assert(win_search(Seq::<BridgedWindow>::empty(), handle) == -1);
        assert(wins =~= Seq::<BridgedWindow>::empty());
        assert(w2[0] == e);
        if e.handle != handle {
            assert(w2.drop_first() =~= Seq::<BridgedWindow>::empty());
        }
    } else {
        assert(w2[0] == wins[0]);
        if wins[0].handle != handle {
            assert(w2.drop_first() =~= wins.drop_first().push(e));
            lemma_win_search_push(wins.drop_first(), e, handle);
        }
    }
}

/// Merges the supplied fields of a configure request into a geometry;
/// fields not supplied are left unchanged.
pub open spec fn merge_geometry(
    g: Geometry,
    x: Option<i32>,
    y: Option<i32>,
    w: Option<u32>,
    h: Option<u32>,
) -> Geometry {
    Geometry {
        x: if x is Some {
            x->0
        } else {
            g.x
        },
        y: if y is Some {
            y->0
        } else {
            g.y
        },
        w: if w is Some {
            w->0
        } else {
            g.w
        },
        h: if h is Some {
            h->0
        } else {
            g.h
        },
    }
}

/// A configure request that supplies only a width changes only the width:
/// height and position of the resulting geometry are those the window
/// already had.
pub proof fn lemma_configure_width_only(g: Geometry, w: u32)
    ensures
        merge_geometry(g, None, None, Some(w), None) == (Geometry { w, ..g }),
{
}

/// Everything outside the bridged-window table is untouched.
pub open spec fn same_except_windows(pre: Application, post: Application) -> bool {
    &&& post.clients@ == pre.clients@
    &&& post.surfaces@ == pre.surfaces@
    &&& post.toplevels@ == pre.toplevels@
    &&& post.wayvr_tasks.items@ == pre.wayvr_tasks.items@
}

impl Application {
    /// Index of the entry carrying `handle`, tracked or destroyed; `-1`
    /// when the handle was never registered.
    pub open spec fn window_index(self, handle: u32) -> int {
        win_search(self.windows@, handle)
    }

    /// Whether some entry — tracked or destroyed — carries `handle`.
    pub open spec fn has_window_entry(self, handle: u32) -> bool {
        self.window_index(handle) >= 0
    }

    /// The entry carrying `handle`.
    pub open spec fn window_entry(self, handle: u32) -> BridgedWindow {
        self.windows@[self.window_index(handle)]
    }

    /// Whether `handle` refers to a currently tracked bridged window.
    pub open spec fn window_tracked(self, handle: u32) -> bool {
        self.has_window_entry(handle) && !(self.window_entry(handle).state is Destroyed)
    }

    /// Finds the table slot of `handle`.
    fn find_window(&self, handle: u32) -> (r: Option<usize>)
        ensures
            r is Some ==> r->0 as int == self.window_index(handle) && (r->0 as int)
                < self.windows@.len(),
            r is None ==> !self.has_window_entry(handle),
    {
        proof {
            lemma_win_search_props(self.windows@, handle);
        }
        let mut j: usize = 0;
        while j < self.windows.len()
            invariant
                j <= self.windows@.len(),
                forall|k: int| 0 <= k < j ==> self.windows@[k].handle != handle,
            decreases self.windows@.len() - j,
        {
            if self.windows[j].handle == handle {
                proof {
                    lemma_win_search_props(self.windows@, handle);
                }
                return Some(j);
            }
            j = j + 1;
        }
        None
    }

    /// Registers a window with the given flag, or reports it already
    /// tracked.
    fn register_window(&mut self, handle: u32, geometry: Geometry, override_redirect: bool) -> (r:
        bool)
        requires
            old(self).wf(),
        ensures
            final(self).wf(),
            same_except_windows(*old(self), *final(self)),
            if old(self).window_tracked(handle) {
                &&& r == false
                &&& final(self).windows@ == old(self).windows@
            } else if old(self).has_window_entry(handle) {
                &&& r == true
                &&& final(self).windows@ == old(self).windows@.update(
                    old(self).window_index(handle),
                    BridgedWindow {
                        handle,
                        geometry,
                        override_redirect,
                        state: WindowState::Unmapped,
                    },
                )
            } else {
                &&& r == true
                &&& final(self).windows@ == old(self).windows@.push(
                    BridgedWindow {
                        handle,
                        geometry,
                        override_redirect,
                        state: WindowState::Unmapped,
                    },
                )
            },
    {
        proof {
            lemma_win_search_props(self.windows@, handle);
        }
        let entry = BridgedWindow { handle, geometry, override_redirect, state: WindowState::Unmapped };
        match self.find_window(handle) {
            Some(j) => {
                let destroyed = match self.windows[j].state {
                    WindowState::Destroyed => true,
                    _ => false,
                };
                if destroyed {
                    let slot = &mut self.windows[j];
                    *slot = entry;
                    proof {
                        lemma_win_search_update(old(self).windows@, j as int, entry, handle);
                        self.lemma_wf_after_windows(*old(self));
                    }
                    true
                } else {
                    false
                }
            },
            None => {
                self.windows.push(entry);
                proof {
                    self.lemma_wf_after_windows_push(*old(self), entry, handle);
                }
                true
            },
        }
    }

    /// Uniqueness of handles survives an update that keeps the slot's
    /// handle; everything else of well-formedness does not mention the
    /// window table.
    proof fn lemma_wf_after_windows(self, pre: Application)
        requires
            pre.wf(),
            self.clients@ == pre.clients@,
            self.surfaces@ == pre.surfaces@,
            self.toplevels@ == pre.toplevels@,
            self.windows@.len() == pre.windows@.len(),
            forall|k: int|
                0 <= k < pre.windows@.len()
                    ==> (#[trigger] self.windows@[k]).handle == pre.windows@[k].handle,
        ensures
            self.wf(),
    {
        assert forall|i: int|
            0 <= i < self.surfaces@.len() && #[trigger] self.surfaces@[i] is Some
                implies self.surface_ok(i) && node_children_ok(self.surfaces@, i) by {
            assert(pre.surface_ok(i));
            assert(node_children_ok(pre.surfaces@, i));
        }
        assert forall|t: int|
            0 <= t < self.toplevels@.len() && #[trigger] self.toplevels@[t] is Some
                implies self.surface_live(self.toplevels@[t]->0.surface)
                    && self.surface_at(self.toplevels@[t]->0.surface).client
                        == self.toplevels@[t]->0.client by {
            assert(pre.toplevels@[t] is Some);
        }
    }

    /// Appending an entry with a handle no entry carries keeps handles
    /// unique.
    proof fn lemma_wf_after_windows_push(self, pre: Application, e: BridgedWindow, handle: u32)
        requires
            pre.wf(),
            self.clients@ == pre.clients@,
            self.surfaces@ == pre.surfaces@,
            self.toplevels@ == pre.toplevels@,
            self.windows@ == pre.windows@.push(e),
            e.handle == handle,
            !pre.has_window_entry(handle),
        ensures
            self.wf(),
    {
        lemma_win_search_props(pre.windows@, handle);
        assert forall|j1: int, j2: int|
            0 <= j1 < j2 < self.windows@.len()
                implies (#[trigger] self.windows@[j1]).handle
                    != (#[trigger] self.windows@[j2]).handle by {
            if j2 == pre.windows@.len() {
                assert(self.windows@[j1] == pre.windows@[j1]);
            }
        }
        self.lemma_wf_after_windows_shape(pre);
    }

    /// Well-formedness clauses outside the window table carry over
    /// unchanged.
    proof fn lemma_wf_after_windows_shape(self, pre: Application)
        requires
            pre.wf(),
            self.clients@ == pre.clients@,
            self.surfaces@ == pre.surfaces@,
            self.toplevels@ == pre.toplevels@,
            self.windows_ok(),
        ensures
            self.wf(),
    {
        assert forall|i: int|
            0 <= i < self.surfaces@.len() && #[trigger] self.surfaces@[i] is Some
                implies self.surface_ok(i) && node_children_ok(self.surfaces@, i) by {
            assert(pre.surface_ok(i));
            assert(node_children_ok(pre.surfaces@, i));
        }
        assert forall|t: int|
            0 <= t < self.toplevels@.len() && #[trigger] self.toplevels@[t] is Some
                implies self.surface_live(self.toplevels@[t]->0.surface)
                    && self.surface_at(self.toplevels@[t]->0.surface).client
                        == self.toplevels@[t]->0.client by {
            assert(pre.toplevels@[t] is Some);
        }
    }

    /// The bridge announced a new managed window: it is registered in the
    /// `Unmapped` state.  Registering a handle already tracked reports
    /// `false` and changes nothing; a handle whose previous window was
    /// destroyed is registered anew.
    pub fn new_window(&mut self, handle: u32, geometry: Geometry) -> (r: bool)
        requires
            old(self).wf(),
        ensures
            final(self).wf(),
            same_except_windows(*old(self), *final(self)),
            if old(self).window_tracked(handle) {
                &&& r == false
                &&& final(self).windows@ == old(self).windows@
            } else if old(self).has_window_entry(handle) {
                &&& r == true
                &&& final(self).windows@ == old(self).windows@.update(
                    old(self).window_index(handle),
                    BridgedWindow {
                        handle,
                        geometry,
                        override_redirect: false,
                        state: WindowState::Unmapped,
                    },
                )
            } else {
                &&& r == true
                &&& final(self).windows@ == old(self).windows@.push(
                    BridgedWindow {
                        handle,
                        geometry,
                        override_redirect: false,
                        state: WindowState::Unmapped,
                    },
                )
            },
    {
        self.register_window(handle, geometry, false)
    }

    /// The bridge announced a new override-redirect window: tracked like
    /// any other, but it never participates in managed placement.
    pub fn new_override_redirect_window(&mut self, handle: u32, geometry: Geometry) -> (r: bool)
        requires
            old(self).wf(),
        ensures
            final(self).wf(),
            same_except_windows(*old(self), *final(self)),
            if old(self).window_tracked(handle) {
                &&& r == false
                &&& final(self).windows@ == old(self).windows@
            } else if old(self).has_window_entry(handle) {
                &&& r == true
                &&& final(self).windows@ == old(self).windows@.update(
                    old(self).window_index(handle),
                    BridgedWindow {
                        handle,
                        geometry,
                        override_redirect: true,
                        state: WindowState::Unmapped,
                    },
                )
            } else {
                &&& r == true
                &&& final(self).windows@ == old(self).windows@.push(
                    BridgedWindow {
                        handle,
                        geometry,
                        override_redirect: true,
                        state: WindowState::Unmapped,
                    },
                )
            },
    {
        self.register_window(handle, geometry, true)
    }

    /// The bridge requested that a window be mapped.  This core applies no
    /// policy gate: a tracked window is moved to `Mapped` at once and `Ok`
    /// tells the caller to issue the map acknowledgment.
    ///
    /// Policy for an untracked handle: on this one call path the bridge
    /// contractually guarantees the window is live, so an untracked handle
    /// means the native graph and the bridge have desynchronized.  That is
    /// a fatal invariant violation, reported as
    /// [`CompositorError::BridgeInconsistency`]; the embedder must
    /// terminate the session with a diagnostic rather than continue.
    pub fn map_window_request(&mut self, handle: u32) -> (r: Result<(), CompositorError>)
        requires
            old(self).wf(),
        ensures
            final(self).wf(),
            same_except_windows(*old(self), *final(self)),
            if old(self).window_tracked(handle) {
                &&& r == Ok::<(), CompositorError>(())
                &&& final(self).windows@ == old(self).windows@.update(
                    old(self).window_index(handle),
                    BridgedWindow { state: WindowState::Mapped, ..old(self).window_entry(handle) },
                )
            } else {
                &&& r == Err::<(), CompositorError>(CompositorError::BridgeInconsistency)
                &&& final(self).windows@ == old(self).windows@
            },
    {
        let applied = self.transition_tracked(handle, WindowState::Mapped);
        if applied {
            Ok(())
        } else {
            Err(CompositorError::BridgeInconsistency)
        }
    }

    /// Moves a tracked window to `state`; reports whether the handle was
    /// tracked at all.
    fn transition_tracked(&mut self, handle: u32, state: WindowState) -> (r: bool)
        requires
            old(self).wf(),
        ensures
            final(self).wf(),
            same_except_windows(*old(self), *final(self)),
            r == old(self).window_tracked(handle),
            if old(self).window_tracked(handle) {
                final(self).windows@ == old(self).windows@.update(
                    old(self).window_index(handle),
                    BridgedWindow { state, ..old(self).window_entry(handle) },
                )
            } else {
                final(self).windows@ == old(self).windows@
            },
    {
        match self.find_window(handle) {
            Some(j) => {
                let destroyed = match self.windows[j].state {
                    WindowState::Destroyed => true,
                    _ => false,
                };
                if destroyed {
                    return false;
                }
                let ghost entry = self.windows@[j as int];
                let slot = &mut self.windows[j];
                slot.state = state;
                proof {
                    assert(self.windows@ == old(self).windows@.update(
                        j as int,
                        BridgedWindow { state, ..entry },
                    ));
                    self.lemma_wf_after_windows(*old(self));
                }
                true
            },
            None => false,
        }
    }

    /// The bridge reported that an override-redirect window mapped itself.
    /// Informational: such windows manage their own placement, so nothing
    /// changes here.
    pub fn mapped_override_redirect_window(&mut self, _handle: u32)
        ensures
            *final(self) == *old(self),
    {
    }

    /// The bridge reported that a window was unmapped: a tracked window
    /// returns to `Unmapped`.  An untracked handle is ignored — this path
    /// carries no liveness guarantee, so it must not be fatal; `false`
    /// reports that nothing was tracked under the handle.
    pub fn unmapped_window(&mut self, handle: u32) -> (r: bool)
        requires
            old(self).wf(),
        ensures
            final(self).wf(),
            same_except_windows(*old(self), *final(self)),
            r == old(self).window_tracked(handle),
            if old(self).window_tracked(handle) {
                final(self).windows@ == old(self).windows@.update(
                    old(self).window_index(handle),
                    BridgedWindow {
                        state: WindowState::Unmapped,
                        ..old(self).window_entry(handle)
                    },
                )
            } else {
                final(self).windows@ == old(self).windows@
            },
    {
        self.transition_tracked(handle, WindowState::Unmapped)
    }

    /// The bridge reported that a window was destroyed: its tracking state
    /// is released — the entry moves to `Destroyed` and stops answering
    /// queries; the handle may later be registered anew.  An untracked
    /// handle is ignored, as for [`Application::unmapped_window`].
    pub fn destroyed_window(&mut self, handle: u32) -> (r: bool)
        requires
            old(self).wf(),
        ensures
            final(self).wf(),
            same_except_windows(*old(self), *final(self)),
            r == old(self).window_tracked(handle),
            if old(self).window_tracked(handle) {
                &&& final(self).windows@ == old(self).windows@.update(
                    old(self).window_index(handle),
                    BridgedWindow {
                        state: WindowState::Destroyed,
                        ..old(self).window_entry(handle)
                    },
                )
                &&& !final(self).window_tracked(handle)
            } else {
                final(self).windows@ == old(self).windows@
            },
    {
        let r = self.transition_tracked(handle, WindowState::Destroyed);
        proof {
            if old(self).window_tracked(handle) {
                lemma_win_search_props(old(self).windows@, handle);
                lemma_win_search_update(
                    old(self).windows@,
                    old(self).window_index(handle),
                    BridgedWindow {
                        state: WindowState::Destroyed,
                        ..old(self).window_entry(handle)
                    },
                    handle,
                );
            }
        }
        r
    }

    /// The bridge relayed a configure request.  Only the supplied fields
    /// are merged into the window's current geometry — none of the four
    /// may be assumed present — and the resulting geometry is returned so
    /// the caller can echo it back as the configuration event.  An
    /// untracked handle yields `None` and changes nothing: this path
    /// carries no liveness guarantee.
    pub fn configure_request(
        &mut self,
        handle: u32,
        x: Option<i32>,
        y: Option<i32>,
        w: Option<u32>,
        h: Option<u32>,
    ) -> (r: Option<Geometry>)
        requires
            old(self).wf(),
        ensures
            final(self).wf(),
            same_except_windows(*old(self), *final(self)),
            if old(self).window_tracked(handle) {
                let merged = merge_geometry(old(self).window_entry(handle).geometry, x, y, w, h);
                &&& r == Some(merged)
                &&& final(self).windows@ == old(self).windows@.update(
                    old(self).window_index(handle),
                    BridgedWindow { geometry: merged, ..old(self).window_entry(handle) },
                )
            } else {
                &&& r == None::<Geometry>
                &&& final(self).windows@ == old(self).windows@
            },
    {
        match self.find_window(handle) {
            Some(j) => {
                let destroyed = match self.windows[j].state {
                    WindowState::Destroyed => true,
                    _ => false,
                };
                if destroyed {
                    return None;
                }
                let g = self.windows[j].geometry;
                let merged = Geometry {
                    x: match x {
                        Some(v) => v,
                        None => g.x,
                    },
                    y: match y {
                        Some(v) => v,
                        None => g.y,
                    },
                    w: match w {
                        Some(v) => v,
                        None => g.w,
                    },
                    h: match h {
                        Some(v) => v,
                        None => g.h,
                    },
                };
                let ghost entry = self.windows@[j as int];
                let slot = &mut self.windows[j];
                slot.geometry = merged;
                proof {
                    assert(self.windows@ == old(self).windows@.update(
                        j as int,
                        BridgedWindow { geometry: merged, ..entry },
                    ));
                    self.lemma_wf_after_windows(*old(self));
                }
                Some(merged)
            },
            None => None,
        }
    }

    /// The bridge reported a window's new geometry after the fact.
    /// Informational: logged by the embedder and acted on by a production
    /// window manager, not by this core.
    pub fn configure_notify(&mut self, _handle: u32, _geometry: Geometry)
        ensures
            *final(self) == *old(self),
    {
    }

    /// The bridge relayed an interactive resize request.  Informational,
    /// as for [`Application::configure_notify`].
    pub fn resize_request(&mut self, _handle: u32, _button: u32, _edges: u32)
        ensures
            *final(self) == *old(self),
    {
    }

    /// The bridge relayed an interactive move request.  Informational, as
    /// for [`Application::configure_notify`].
    pub fn move_request(&mut self, _handle: u32, _button: u32)
        ensures
            *final(self) == *old(self),
    {
    }

    /// Whether `handle` refers to a tracked bridged window.
    pub fn window_is_tracked(&self, handle: u32) -> (r: bool)
        ensures
            r == self.window_tracked(handle),
    {
        match self.find_window(handle) {
            Some(j) => match self.windows[j].state {
                WindowState::Destroyed => false,
                _ => true,
            },
            None => false,
        }
    }

    /// The geometry of a tracked window, or `None` for an untracked
    /// handle.
    pub fn window_geometry(&self, handle: u32) -> (r: Option<Geometry>)
        ensures
            r == (if self.window_tracked(handle) {
                Some(self.window_entry(handle).geometry)
            } else {
                None::<Geometry>
            }),
    {
        match self.find_window(handle) {
            Some(j) => match self.windows[j].state {
                WindowState::Destroyed => None,
                _ => Some(self.windows[j].geometry),
            },
            None => None,
        }
    }

    /// Whether a tracked window is mapped, or `None` for an untracked
    /// handle.
    pub fn window_mapped(&self, handle: u32) -> (r: Option<bool>)
        ensures
            r == (if self.window_tracked(handle) {
                Some(self.window_entry(handle).state is Mapped)
            } else {
                None::<bool>
            }),
    {
        match self.find_window(handle) {
            Some(j) => match self.windows[j].state {
                WindowState::Destroyed => None,
                WindowState::Mapped => Some(true),
                _ => Some(false),
            },
            None => None,
        }
    }

    /// Whether a tracked window bypasses managed placement, or `None` for
    /// an untracked handle.
    pub fn window_override_redirect(&self, handle: u32) -> (r: Option<bool>)
        ensures
            r == (if self.window_tracked(handle) {
                Some(self.window_entry(handle).override_redirect)
            } else {
                None::<bool>
            }),
    {
        match self.find_window(handle) {
            Some(j) => match self.windows[j].state {
                WindowState::Destroyed => None,
                _ => Some(self.windows[j].override_redirect),
            },
            None => None,
        }
    }
}

} // verus!
