//! Behaviour of the legacy-window-system bridge, the pointer-decision
//! helpers and the session context.

use wayvr_core::comp::Application;
use wayvr_core::input::MouseIndex;
use wayvr_core::input::PointerMode;
use wayvr_core::input::browser_button_index;
use wayvr_core::input::clamped_coord;
use wayvr_core::input::mouse_index_of;
use wayvr_core::types::CompositorError;
use wayvr_core::types::Geometry;
use wayvr_core::StubOverlayData;
use wayvr_core::WayVRContext;

const GEO: Geometry = Geometry { x: 5, y: 6, w: 100, h: 200 };

#[test]
fn new_window_registers_unmapped() {
    let mut app = Application::new();
    assert!(app.new_window(7, GEO));
    assert!(app.window_is_tracked(7));
    assert_eq!(app.window_mapped(7), Some(false));
    assert_eq!(app.window_geometry(7), Some(GEO));
    assert_eq!(app.window_override_redirect(7), Some(false));
    // Registering the same handle again changes nothing.
    assert!(!app.new_window(7, Geometry { x: 0, y: 0, w: 1, h: 1 }));
    assert_eq!(app.window_geometry(7), Some(GEO));
}

#[test]
fn override_redirect_windows_are_tracked_with_the_flag() {
    let mut app = Application::new();
    assert!(app.new_override_redirect_window(3, GEO));
    assert_eq!(app.window_override_redirect(3), Some(true));
    assert_eq!(app.window_mapped(3), Some(false));
    app.mapped_override_redirect_window(3);
    // Informational only: the bridge manages such windows itself.
    assert_eq!(app.window_mapped(3), Some(false));
}

#[test]
fn map_request_is_acknowledged_without_a_policy_gate() {
    let mut app = Application::new();
    app.new_window(7, GEO);
    app.map_window_request(7).unwrap();
    assert_eq!(app.window_mapped(7), Some(true));
}

#[test]
fn map_request_for_an_untracked_window_is_a_fatal_inconsistency() {
    // The bridge guarantees liveness on the map path, so an id never
    // registered means the two event streams have desynchronized: the
    // chosen policy reports a fatal error for the embedder to act on,
    // rather than ignoring the event.
    let mut app = Application::new();
    assert_eq!(app.map_window_request(7).unwrap_err(), CompositorError::BridgeInconsistency);
    let mut app = Application::new();
    app.new_window(7, GEO);
    app.destroyed_window(7);
    assert_eq!(app.map_window_request(7).unwrap_err(), CompositorError::BridgeInconsistency);
}

#[test]
fn configure_request_with_only_width_keeps_the_rest() {
    let mut app = Application::new();
    app.new_window(9, GEO);
    let echoed = app.configure_request(9, None, None, Some(640), None).unwrap();
    assert_eq!(echoed, Geometry { x: 5, y: 6, w: 640, h: 200 });
    assert_eq!(app.window_geometry(9), Some(echoed));
}

#[test]
fn configure_request_merges_only_supplied_fields() {
    let mut app = Application::new();
    app.new_window(9, GEO);
    let echoed = app.configure_request(9, Some(-3), None, None, Some(480)).unwrap();
    assert_eq!(echoed, Geometry { x: -3, y: 6, w: 100, h: 480 });
    let echoed = app.configure_request(9, None, Some(12), Some(320), None).unwrap();
    assert_eq!(echoed, Geometry { x: -3, y: 12, w: 320, h: 480 });
    // An untracked handle is ignored on this path.
    assert_eq!(app.configure_request(10, Some(1), None, None, None), None);
}

#[test]
fn unmap_and_destroy_release_tracking() {
    let mut app = Application::new();
    app.new_window(4, GEO);
    app.map_window_request(4).unwrap();
    assert!(app.unmapped_window(4));
    assert_eq!(app.window_mapped(4), Some(false));
    assert!(app.destroyed_window(4));
    assert!(!app.window_is_tracked(4));
    assert_eq!(app.window_geometry(4), None);
    // Informational paths ignore untracked handles instead of failing.
    assert!(!app.unmapped_window(4));
    assert!(!app.destroyed_window(4));
    // The handle can be registered anew after destruction.
    assert!(app.new_window(4, GEO));
    assert_eq!(app.window_mapped(4), Some(false));
}

#[test]
fn informational_bridge_events_change_nothing() {
    let mut app = Application::new();
    app.new_window(4, GEO);
    app.configure_notify(4, Geometry { x: 1, y: 2, w: 3, h: 4 });
    app.resize_request(4, 1, 8);
    app.move_request(4, 1);
    assert_eq!(app.window_geometry(4), Some(GEO));
}

#[test]
fn pointer_modes_map_to_mouse_buttons() {
    assert_eq!(mouse_index_of(PointerMode::Left), Some(MouseIndex::Left));
    assert_eq!(mouse_index_of(PointerMode::Middle), Some(MouseIndex::Center));
    assert_eq!(mouse_index_of(PointerMode::Right), Some(MouseIndex::Right));
    assert_eq!(mouse_index_of(PointerMode::Special), None);
}

#[test]
fn pointer_modes_map_to_browser_button_indices() {
    assert_eq!(browser_button_index(PointerMode::Left), 0);
    assert_eq!(browser_button_index(PointerMode::Right), 1);
    assert_eq!(browser_button_index(PointerMode::Middle), 2);
    assert_eq!(browser_button_index(PointerMode::Special), 0);
}

#[test]
fn pointer_coordinates_clamp_at_the_near_edge() {
    assert_eq!(clamped_coord(-17), 0);
    assert_eq!(clamped_coord(0), 0);
    assert_eq!(clamped_coord(1279), 1279);
}

#[test]
fn context_starts_an_empty_session_of_the_given_size() {
    let ctx = WayVRContext::new(1280, 720);
    assert_eq!(ctx.width, 1280);
    assert_eq!(ctx.height, 720);
    let mut app = ctx.wayvr;
    assert_eq!(app.client_data_for(0), None);
    assert!(!app.surface_exists(0));
    assert!(!app.window_is_tracked(0));
    assert!(app.wayvr_tasks.drain().is_empty());
}

#[test]
fn stub_overlay_data_is_default_constructible() {
    let StubOverlayData {} = StubOverlayData::default();
}
