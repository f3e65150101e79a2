//! Behaviour of the compositor core: surfaces, the dirty set, frame
//! delivery, the shell handler, the client registry and the task queue.

use wayvr_core::comp::Application;
use wayvr_core::comp::MAX_NESTING;
use wayvr_core::frames::send_frames_surface_tree;
use wayvr_core::types::ClientKind;
use wayvr_core::types::CompositorError;
use wayvr_core::types::DisconnectReason;
use wayvr_core::types::FrameDone;
use wayvr_core::types::WayVRTask;

fn server_with_client() -> (Application, usize) {
    let mut app = Application::new();
    let client = app.on_connect(ClientKind::Native);
    (app, client)
}

#[test]
fn commit_then_check_redraw_true_exactly_once() {
    let (mut app, client) = server_with_client();
    let s = app.create_surface(client).unwrap();
    assert!(!app.surface_pending_redraw(s));
    app.commit(s);
    assert!(app.surface_pending_redraw(s));
    assert!(app.check_redraw(s));
    assert!(!app.check_redraw(s));
    assert!(!app.check_redraw(s));
    app.commit(s);
    assert!(app.check_redraw(s));
    assert!(!app.check_redraw(s));
}

#[test]
fn dirty_set_insert_is_idempotent() {
    let (mut app, client) = server_with_client();
    let s = app.create_surface(client).unwrap();
    app.commit(s);
    app.commit(s);
    assert!(app.check_redraw(s));
    assert!(!app.check_redraw(s));
}

#[test]
fn check_redraw_of_unknown_surface_is_false() {
    let mut app = Application::new();
    assert!(!app.check_redraw(17));
}

#[test]
fn commit_promotes_pending_buffer() {
    let (mut app, client) = server_with_client();
    let s = app.create_surface(client).unwrap();
    app.attach_buffer(s, Some(40)).unwrap();
    assert_eq!(app.surface_current_buffer(s), None);
    assert!(!app.surface_committed(s));
    app.commit(s);
    assert!(app.surface_committed(s));
    assert_eq!(app.surface_current_buffer(s), Some(40));
    // A commit with nothing newly attached keeps the current buffer.
    app.commit(s);
    assert_eq!(app.surface_current_buffer(s), Some(40));
    // Attaching `None` detaches at the next commit... it replaces the
    // pending attachment, and the current buffer survives until then.
    app.attach_buffer(s, None).unwrap();
    app.commit(s);
    assert_eq!(app.surface_current_buffer(s), Some(40));
}

#[test]
fn frame_callbacks_travel_children_first_in_queued_order() {
    let (mut app, client) = server_with_client();
    let parent = app.create_surface(client).unwrap();
    let child1 = app.create_surface(client).unwrap();
    let child2 = app.create_surface(client).unwrap();
    app.attach_subsurface(parent, child1).unwrap();
    app.attach_subsurface(parent, child2).unwrap();
    app.request_frame_callback(child1, 101).unwrap();
    app.request_frame_callback(child2, 102).unwrap();
    app.request_frame_callback(parent, 100).unwrap();
    app.commit(child1);
    app.commit(child2);
    app.commit(parent);
    let done = send_frames_surface_tree(&mut app, parent, 777);
    assert_eq!(
        done,
        vec![
            FrameDone { callback: 101, time: 777 },
            FrameDone { callback: 102, time: 777 },
            FrameDone { callback: 100, time: 777 },
        ]
    );
    // Exactly once: a second pass delivers nothing.
    let again = send_frames_surface_tree(&mut app, parent, 778);
    assert!(again.is_empty());
    assert_eq!(app.surface_queued_callback_count(parent), 0);
    assert_eq!(app.surface_queued_callback_count(child1), 0);
    assert_eq!(app.surface_queued_callback_count(child2), 0);
}

#[test]
fn frame_callbacks_of_one_surface_keep_queued_order() {
    let (mut app, client) = server_with_client();
    let s = app.create_surface(client).unwrap();
    app.request_frame_callback(s, 5).unwrap();
    app.request_frame_callback(s, 6).unwrap();
    app.commit(s);
    app.request_frame_callback(s, 7).unwrap();
    app.commit(s);
    let done = send_frames_surface_tree(&mut app, s, 1);
    assert_eq!(
        done,
        vec![
            FrameDone { callback: 5, time: 1 },
            FrameDone { callback: 6, time: 1 },
            FrameDone { callback: 7, time: 1 },
        ]
    );
}

#[test]
fn never_committed_surface_yields_zero_deliveries() {
    let (mut app, client) = server_with_client();
    let s = app.create_surface(client).unwrap();
    // A callback was requested but no commit made it deliverable.
    app.request_frame_callback(s, 9).unwrap();
    let done = send_frames_surface_tree(&mut app, s, 4);
    assert!(done.is_empty());
    // An unknown handle is skipped, not an error.
    let done = send_frames_surface_tree(&mut app, 999, 4);
    assert!(done.is_empty());
}

#[test]
fn traversal_visits_descendants_past_empty_intermediates() {
    let (mut app, client) = server_with_client();
    let root = app.create_surface(client).unwrap();
    let mid = app.create_surface(client).unwrap();
    let leaf = app.create_surface(client).unwrap();
    app.attach_subsurface(root, mid).unwrap();
    app.attach_subsurface(mid, leaf).unwrap();
    app.request_frame_callback(leaf, 42).unwrap();
    app.commit(leaf);
    // Neither root nor mid has anything queued; the leaf is still reached.
    app.commit(root);
    let done = send_frames_surface_tree(&mut app, root, 8);
    assert_eq!(done, vec![FrameDone { callback: 42, time: 8 }]);
}

#[test]
fn new_toplevel_queues_one_task_and_grants_activation() {
    let (mut app, client_a) = server_with_client();
    let s = app.create_surface(client_a).unwrap();
    let cfg = app.new_toplevel(s).unwrap();
    assert!(cfg.activated);
    let tl = cfg.toplevel;
    let info = app.toplevel_info(tl).unwrap();
    assert!(info.activated);
    assert_eq!(info.surface, s);
    assert_eq!(info.client, client_a);
    let drained = app.wayvr_tasks.drain();
    assert_eq!(drained, vec![WayVRTask::NewToplevel(client_a, tl)]);
    // Draining twice yields the task once, then empty.
    assert!(app.wayvr_tasks.drain().is_empty());
}

#[test]
fn task_queue_is_fifo_and_drains_in_one_pass() {
    let (mut app, client) = server_with_client();
    let s1 = app.create_surface(client).unwrap();
    let s2 = app.create_surface(client).unwrap();
    let t1 = app.new_toplevel(s1).unwrap().toplevel;
    let t2 = app.new_toplevel(s2).unwrap().toplevel;
    assert_eq!(app.wayvr_tasks.len(), 2);
    let drained = app.wayvr_tasks.drain();
    assert_eq!(
        drained,
        vec![WayVRTask::NewToplevel(client, t1), WayVRTask::NewToplevel(client, t2)]
    );
    assert_eq!(app.wayvr_tasks.len(), 0);
}

#[test]
fn new_toplevel_for_unknown_surface_is_refused() {
    let mut app = Application::new();
    assert_eq!(app.new_toplevel(3).unwrap_err(), CompositorError::NoSuchSurface);
    assert_eq!(app.wayvr_tasks.len(), 0);
}

#[test]
fn destroy_toplevel_releases_the_slot() {
    let (mut app, client) = server_with_client();
    let s = app.create_surface(client).unwrap();
    let tl = app.new_toplevel(s).unwrap().toplevel;
    assert!(app.toplevel_info(tl).is_some());
    app.destroy_toplevel(tl).unwrap();
    assert!(app.toplevel_info(tl).is_none());
    assert_eq!(app.destroy_toplevel(tl).unwrap_err(), CompositorError::NoSuchToplevel);
    // The wrapped surface outlives the shell object.
    assert!(app.surface_exists(s));
}

#[test]
fn disconnect_removes_everything_the_client_owned() {
    let (mut app, client_a) = server_with_client();
    let client_b = app.on_connect(ClientKind::Bridged);
    let sa1 = app.create_surface(client_a).unwrap();
    let sa2 = app.create_surface(client_a).unwrap();
    app.attach_subsurface(sa1, sa2).unwrap();
    let sb = app.create_surface(client_b).unwrap();
    let ta = app.new_toplevel(sa1).unwrap().toplevel;
    let tb = app.new_toplevel(sb).unwrap().toplevel;
    app.commit(sa1);
    app.on_disconnect(client_a, DisconnectReason::Voluntary);
    // Queries about the client and its entities answer "not found".
    assert_eq!(app.client_data_for(client_a), None);
    assert!(!app.surface_exists(sa1));
    assert!(!app.surface_exists(sa2));
    assert!(app.toplevel_info(ta).is_none());
    assert!(!app.check_redraw(sa1));
    // The other client is untouched.
    assert_eq!(app.client_data_for(client_b), Some(ClientKind::Bridged));
    assert!(app.surface_exists(sb));
    assert!(app.toplevel_info(tb).is_some());
}

#[test]
fn client_registry_returns_the_stored_variant() {
    let mut app = Application::new();
    let native = app.on_connect(ClientKind::Native);
    let bridged = app.on_connect(ClientKind::Bridged);
    assert_eq!(app.client_data_for(native), Some(ClientKind::Native));
    assert_eq!(app.client_data_for(bridged), Some(ClientKind::Bridged));
    assert_eq!(app.client_data_for(99), None);
}

#[test]
fn create_surface_needs_a_connected_client() {
    let mut app = Application::new();
    assert_eq!(app.create_surface(0).unwrap_err(), CompositorError::NoSuchClient);
    let client = app.on_connect(ClientKind::Native);
    app.on_disconnect(client, DisconnectReason::ProtocolViolation);
    assert_eq!(app.create_surface(client).unwrap_err(), CompositorError::NoSuchClient);
}

#[test]
fn attach_subsurface_checks_its_preconditions() {
    let (mut app, client_a) = server_with_client();
    let client_b = app.on_connect(ClientKind::Native);
    let p = app.create_surface(client_a).unwrap();
    let c = app.create_surface(client_a).unwrap();
    let other = app.create_surface(client_b).unwrap();
    assert_eq!(app.attach_subsurface(p, 99).unwrap_err(), CompositorError::NoSuchSurface);
    assert_eq!(app.attach_subsurface(99, c).unwrap_err(), CompositorError::NoSuchSurface);
    assert_eq!(app.attach_subsurface(p, p).unwrap_err(), CompositorError::NotAttachable);
    assert_eq!(app.attach_subsurface(p, other).unwrap_err(), CompositorError::NotAttachable);
    app.attach_subsurface(p, c).unwrap();
    assert_eq!(app.surface_parent(c), Some(p));
    // Already linked: the child is no longer a fresh root.
    let c2 = app.create_surface(client_a).unwrap();
    assert_eq!(app.attach_subsurface(c2, c).unwrap_err(), CompositorError::NotAttachable);
    // A surface with children of its own cannot become a subsurface.
    assert_eq!(app.attach_subsurface(c2, p).unwrap_err(), CompositorError::NotAttachable);
}

#[test]
fn nesting_deeper_than_the_limit_is_refused() {
    let (mut app, client) = server_with_client();
    let mut parent = app.create_surface(client).unwrap();
    for _ in 0..MAX_NESTING {
        let child = app.create_surface(client).unwrap();
        app.attach_subsurface(parent, child).unwrap();
        parent = child;
    }
    let child = app.create_surface(client).unwrap();
    assert_eq!(app.attach_subsurface(parent, child).unwrap_err(), CompositorError::NestingTooDeep);
}

#[test]
fn destroy_surface_releases_the_slot_and_unlinks_it() {
    let (mut app, client) = server_with_client();
    let p = app.create_surface(client).unwrap();
    let c1 = app.create_surface(client).unwrap();
    let c2 = app.create_surface(client).unwrap();
    app.attach_subsurface(p, c1).unwrap();
    app.attach_subsurface(p, c2).unwrap();
    app.request_frame_callback(c2, 5).unwrap();
    app.commit(c1);
    app.commit(c2);
    app.commit(p);
    app.destroy_surface(c1).unwrap();
    assert!(!app.surface_exists(c1));
    assert!(!app.check_redraw(c1));
    // Delivery now sees only the surviving child and the parent.
    let done = send_frames_surface_tree(&mut app, p, 3);
    assert_eq!(done, vec![FrameDone { callback: 5, time: 3 }]);
}

#[test]
fn destroy_surface_refuses_parents_and_shell_roles() {
    let (mut app, client) = server_with_client();
    let p = app.create_surface(client).unwrap();
    let c = app.create_surface(client).unwrap();
    app.attach_subsurface(p, c).unwrap();
    // Subsurfaces must be destroyed before their parent.
    assert_eq!(app.destroy_surface(p).unwrap_err(), CompositorError::SurfaceInUse);
    app.destroy_surface(c).unwrap();
    // A surface wrapped by a toplevel keeps its shell role.
    let tl = app.new_toplevel(p).unwrap().toplevel;
    assert_eq!(app.destroy_surface(p).unwrap_err(), CompositorError::SurfaceInUse);
    app.destroy_toplevel(tl).unwrap();
    app.destroy_surface(p).unwrap();
    assert_eq!(app.destroy_surface(p).unwrap_err(), CompositorError::NoSuchSurface);
}

#[test]
fn popup_requests_are_acknowledged_noops() {
    let (mut app, client) = server_with_client();
    let s = app.create_surface(client).unwrap();
    let g = wayvr_core::types::Geometry { x: 0, y: 0, w: 10, h: 10 };
    app.new_popup(s, g);
    app.grab(s, 1);
    app.reposition_request(s, g, 2);
    app.focus_changed(Some(s));
    app.cursor_image(None);
    app.buffer_destroyed(7);
    app.send(String::from("text/plain"));
    // None of the stubs disturbs tracked state.
    assert!(app.surface_exists(s));
    assert!(!app.surface_pending_redraw(s));
    assert_eq!(app.wayvr_tasks.len(), 0);
}
