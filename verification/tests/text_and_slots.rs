use std::sync::Arc;

use loader_impl::dependency::{host_key_of, parse_dependency};
use loader_impl::global::{get_global_plugin_manager, set_global_plugin_manager};
use loader_impl::manager::PluginManager;
use loader_impl::port::{PluginInstance, PluginPort, PortSymbols};
use loader_impl::text::{join_str, rfind_char, starts_with, str_eq, substring};

#[test]
fn dependency_splits_at_the_last_at_sign() {
    assert_eq!(parse_dependency("loader@^0.1.0"), ("loader".to_string(), Some("^0.1.0".to_string())));
    assert_eq!(parse_dependency("a@b@>=1"), ("a@b".to_string(), Some(">=1".to_string())));
    assert_eq!(parse_dependency("libx.so"), ("libx.so".to_string(), None));
    assert_eq!(parse_dependency("x@"), ("x".to_string(), Some(String::new())));
}

#[test]
fn host_references_are_normalized() {
    assert_eq!(host_key_of("loader"), Some("host:loader".to_string()));
    assert_eq!(host_key_of("host:loader"), Some("host:loader".to_string()));
    assert_eq!(host_key_of("host:renderer"), Some("host:renderer".to_string()));
    assert_eq!(host_key_of("loaderx"), None);
    assert_eq!(host_key_of("./libx.so"), None);
}

#[test]
fn text_helpers() {
    assert!(str_eq("héllo", "héllo"));
    assert!(!str_eq("hello", "hell"));
    assert!(starts_with("host:loader", "host:"));
    assert!(!starts_with("hos", "host:"));
    assert_eq!(rfind_char("a@b@c", '@'), Some(3));
    assert_eq!(rfind_char("é@x", '@'), Some(1));
    assert_eq!(rfind_char("abc", '@'), None);
    assert_eq!(join_str("ab", "cd"), "abcd".to_string());
    assert_eq!(substring("héllo", 1, 3), "él".to_string());
}

#[test]
fn global_manager_is_set_once() {
    let mut slot: Option<Arc<PluginManager<u32>>> = None;
    assert!(get_global_plugin_manager(&slot).is_none());
    let first = Arc::new(PluginManager::new());
    assert_eq!(set_global_plugin_manager(&mut slot, first.clone()), Ok(()));
    let second = Arc::new(PluginManager::new());
    assert_eq!(
        set_global_plugin_manager(&mut slot, second),
        Err("global plugin manager already set".to_string())
    );
    assert!(Arc::ptr_eq(get_global_plugin_manager(&slot).unwrap(), &first));
}

#[test]
fn port_keeps_its_entry_points() {
    let port = PluginPort::new("vtable", PortSymbols { process: true, process2: false });
    let instance = PluginInstance::new(port);
    assert_eq!(*instance.get_port().vtable(), "vtable");
    assert!(instance.get_port().symbols().process);
    assert!(!instance.get_port().symbols().process2);
}

#[test]
fn dependency_split_round_trip_and_host_key_idempotent() {
    let (p, q) = parse_dependency("dir@v/lib.so@>=1.2");
    assert_eq!(format!("{}@{}", p, q.clone().unwrap()), "dir@v/lib.so@>=1.2");
    assert!(!q.unwrap().contains('@'));
    let once = host_key_of("loader").unwrap();
    assert_eq!(host_key_of(&once), Some(once.clone()));
}
