use tauri_plugin_fs_stream::config::Config;
use tauri_plugin_fs_stream::error::Error;
use tauri_plugin_fs_stream::state::{new_plugin_config_state, PluginFileResources, PluginResource};

#[test]
fn config_state_keeps_setting() {
    let state = new_plugin_config_state(Some(false));
    assert_eq!(state.require_literal_leading_dot, Some(false));
    assert!(!state.require_literal_leading_dot_or(true));
    let state = new_plugin_config_state(None);
    assert!(state.require_literal_leading_dot_or(true));
    assert!(!state.require_literal_leading_dot_or(false));
    let c = Config { require_literal_leading_dot: Some(true) };
    assert_eq!(c.require_literal_leading_dot, Some(true));
}

#[test]
fn resources_are_tracked_until_closed() {
    let mut r = PluginFileResources::new();
    r.add(3);
    r.add(5);
    r.add(3);
    assert!(r.contains(3) && r.contains(5));
    let mut ids = r.ids();
    ids.sort();
    assert_eq!(ids, vec![3, 5]);
    r.close(3);
    assert!(!r.contains(3));
    r.close(9);
    assert_eq!(r.ids(), vec![5]);
}

#[test]
fn close_all_hands_out_every_id_once() {
    let mut r = PluginFileResources::new();
    for id in [1u32, 2, 3, 2] {
        r.add(id);
    }
    let mut closed = r.close_all();
    closed.sort();
    assert_eq!(closed, vec![1, 2, 3]);
    assert!(r.ids().is_empty());
    assert!(r.close_all().is_empty());
}

#[test]
fn plugin_resource_shares_value() {
    let res = PluginResource::new(vec![1u8, 2]);
    assert_eq!(res.get(), &vec![1u8, 2]);
}

#[test]
fn error_messages() {
    assert_eq!(Error::with("boom").message(), "boom");
    assert_eq!(Error::missing_value("x").message(), "missing value: x");
    assert_eq!(Error::invalid_type("x").message(), "invalid type for x");
    assert_eq!(Error::invalid_value("x", "y").message(), "invalid value: y for x");
    assert_eq!(Error::Io("disk".to_string()).message(), "disk");
    assert_eq!(Error::SerdeJson("bad".to_string()).message(), "bad");
}
