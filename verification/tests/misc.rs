use slmsttaa::backend::{backend_choice, limits_choice, query_setting, BackendChoice, LimitsChoice};
use slmsttaa::clipboard::ClipboardCache;
use slmsttaa::ui::{widget_id, DragState, WidgetIds};

#[test]
fn backend_names_ignore_case() {
    assert_eq!(backend_choice(None), BackendChoice::Default);
    assert_eq!(backend_choice(Some("WebGL2")), BackendChoice::Gl);
    assert_eq!(backend_choice(Some("browser_webgpu")), BackendChoice::WebGpu);
    assert_eq!(backend_choice(Some("Vulkan")), BackendChoice::Vulkan);
    assert_eq!(backend_choice(Some("d3d12")), BackendChoice::Dx12);
    assert_eq!(backend_choice(Some("METAL")), BackendChoice::Metal);
    assert_eq!(backend_choice(Some("primary")), BackendChoice::Default);
    assert_eq!(backend_choice(Some("glide")), BackendChoice::Unknown);
}

#[test]
fn limit_names_ignore_case() {
    assert_eq!(limits_choice(None), LimitsChoice::Default);
    assert_eq!(limits_choice(Some("GL")), LimitsChoice::WebGl2);
    assert_eq!(limits_choice(Some("downlevel")), LimitsChoice::Downlevel);
    assert_eq!(limits_choice(Some("Full")), LimitsChoice::Full);
    assert_eq!(limits_choice(Some("huge")), LimitsChoice::Unknown);
}

#[test]
fn query_settings_take_the_first_pair() {
    assert_eq!(query_setting("?backend=gl&limits=webgl2", "limits"), Some("webgl2".to_string()));
    assert_eq!(query_setting("??backend=gl", "backend"), Some("gl".to_string()));
    assert_eq!(query_setting("backend=&backend=gl", "backend"), None);
    assert_eq!(query_setting("flag&backend=a=b", "backend"), Some("a=b".to_string()));
    assert_eq!(query_setting("", "backend"), None);
    assert_eq!(query_setting("?x=1", "backend"), None);
}

#[test]
fn widget_ids_are_fnv1a_seeded_by_call_order() {
    assert_eq!(widget_id(0, ""), 0xcbf2_9ce4_8422_2325);
    assert_eq!(widget_id(0, "a"), 0xaf63_dc4c_8601_ec8c);
    let mut ids = WidgetIds::new();
    let first = ids.next_id("speed");
    let second = ids.next_id("speed");
    assert_ne!(first, second);
    assert_eq!(first, widget_id(0, "speed"));
    assert_eq!(second, widget_id(1, "speed"));
}

#[test]
fn the_clipboard_reads_back_what_was_written() {
    let mut cache = ClipboardCache::new();
    assert_eq!(cache.cached(), None);
    cache.cache("hello".to_string());
    assert_eq!(cache.cached(), Some("hello".to_string()));
    cache.cache("again".to_string());
    assert_eq!(cache.cached(), Some("again".to_string()));
}

#[test]
fn a_drag_belongs_to_the_widget_that_was_pressed() {
    let mut drag = DragState::new();
    assert!(!drag.is_dragging());
    assert!(drag.update(7, true, true, true));
    assert!(!drag.update(8, true, false, true));
    assert!(drag.update(7, false, false, true));
    assert!(drag.is_dragging());
    assert!(!drag.update(7, false, false, false));
    assert!(!drag.is_dragging());
}
