use loader_impl::loader_version;
use loader_impl::manager::{DependencyFailure, PluginManager};
use loader_impl::plugin::{PluginEntry, PluginMeta};

fn dynamic(name: &str, version: &str, handle: u32) -> PluginEntry<u32> {
    PluginEntry::Dynamic {
        meta: PluginMeta::new(name.to_string(), version.to_string(), Vec::new()),
        handle,
    }
}

#[test]
fn loader_version_is_0_1_0() {
    assert_eq!(loader_version(), "0.1.0");
}

#[test]
fn new_manager_lists_only_the_host_loader() {
    let m: PluginManager<u32> = PluginManager::new();
    assert_eq!(m.list_plugins().unwrap(), vec!["host:loader -> host:loader@0.1.0".to_string()]);
    assert!(m.contains_key("host:loader"));
    assert!(!m.contains_key("loader"));
}

#[test]
fn listing_follows_registration_order() {
    let mut m: PluginManager<u32> = PluginManager::new();
    assert!(m.insert("/p/b.so".to_string(), dynamic("b", "1.2.0", 2)).is_none());
    assert!(m.insert("/p/a.so".to_string(), dynamic("a", "0.3.1", 1)).is_none());
    assert_eq!(
        m.list_plugins().unwrap(),
        vec![
            "host:loader -> host:loader@0.1.0".to_string(),
            "/p/b.so -> b@1.2.0".to_string(),
            "/p/a.so -> a@0.3.1".to_string(),
        ]
    );
}

#[test]
fn insert_replaces_an_entry_in_place() {
    let mut m: PluginManager<u32> = PluginManager::new();
    m.insert("/p/a.so".to_string(), dynamic("a", "1.0.0", 1));
    m.insert("/p/b.so".to_string(), dynamic("b", "1.0.0", 2));
    let replaced = m.insert("/p/a.so".to_string(), dynamic("a2", "2.0.0", 3));
    match replaced {
        Some(PluginEntry::Dynamic { meta, handle }) => {
            assert_eq!(meta.name, "a");
            assert_eq!(handle, 1);
        }
        _ => panic!("expected the replaced entry"),
    }
    assert_eq!(
        m.list_plugins().unwrap(),
        vec![
            "host:loader -> host:loader@0.1.0".to_string(),
            "/p/a.so -> a2@2.0.0".to_string(),
            "/p/b.so -> b@1.0.0".to_string(),
        ]
    );
}

#[test]
fn unload_hands_back_the_entry_and_forgets_the_key() {
    let mut m: PluginManager<u32> = PluginManager::new();
    m.insert("/p/a.so".to_string(), dynamic("a", "1.0.0", 9));
    match m.unload_plugin("/p/a.so") {
        Some(PluginEntry::Dynamic { handle, .. }) => assert_eq!(handle, 9),
        _ => panic!("expected the dynamic entry"),
    }
    assert!(!m.contains_key("/p/a.so"));
    assert!(m.unload_plugin("/p/a.so").is_none());
    assert_eq!(m.list_plugins().unwrap(), vec!["host:loader -> host:loader@0.1.0".to_string()]);
}

#[test]
fn unload_never_removes_the_loader_entry() {
    let mut m: PluginManager<u32> = PluginManager::new();
    m.insert(
        "host:renderer".to_string(),
        PluginEntry::Host { meta: PluginMeta::new("host:renderer".to_string(), "2.0.0".to_string(), Vec::new()) },
    );
    assert!(m.unload_plugin("host:loader").is_none());
    assert!(m.get("host:loader").unwrap().is_host());
    assert!(m.unload_plugin("host:renderer").is_some());
    assert_eq!(m.list_plugins().unwrap(), vec!["host:loader -> host:loader@0.1.0".to_string()]);
}

#[test]
fn get_finds_registered_entries() {
    let mut m: PluginManager<u32> = PluginManager::new();
    m.insert("/p/a.so".to_string(), dynamic("a", "1.0.0", 4));
    assert_eq!(m.get("/p/a.so").unwrap().name(), "a");
    assert_eq!(m.get("host:loader").unwrap().version(), "0.1.0");
    assert!(m.get("/p/none.so").is_none());
}

#[test]
fn calling_a_plugin_is_never_possible() {
    let mut m: PluginManager<u32> = PluginManager::new();
    m.insert("/p/a.so".to_string(), dynamic("a", "1.0.0", 1));
    assert_eq!(m.call_plugin_by_path("/p/a.so", &[1, 2]), Err("plugin process API removed".to_string()));
    assert_eq!(m.call_plugin_by_path("host:loader", &[]), Err("cannot call host entry".to_string()));
    assert_eq!(m.call_plugin_by_path("/p/none.so", &[]), Err("plugin not loaded".to_string()));
}

#[test]
fn host_dependency_satisfied() {
    let m: PluginManager<u32> = PluginManager::new();
    assert_eq!(m.check_dependency("host:loader", Some("^0.1.0")), Ok(()));
    assert_eq!(m.check_dependency("host:loader", None), Ok(()));
}

#[test]
fn dependency_version_mismatch() {
    let m: PluginManager<u32> = PluginManager::new();
    assert_eq!(
        m.check_dependency("host:loader", Some(">=1.0")),
        Err(DependencyFailure {
            message: "version mismatch for host:loader: 0.1.0 does not satisfy >=1.0".to_string(),
            rollback: true,
        })
    );
    assert_eq!(
        m.check_dependency("host:loader", Some("0.2")),
        Err(DependencyFailure {
            message: "version mismatch for host:loader: 0.1.0 does not satisfy ^0.2".to_string(),
            rollback: true,
        })
    );
}

#[test]
fn dependency_with_invalid_requirement_keeps_loaded_dependencies() {
    let m: PluginManager<u32> = PluginManager::new();
    let r = m.check_dependency("host:loader", Some("abc")).unwrap_err();
    assert!(r.message.starts_with("invalid version requirement 'abc' : "));
    assert!(r.message.len() > "invalid version requirement 'abc' : ".len());
    assert!(!r.rollback);
}

#[test]
fn dependency_not_registered() {
    let m: PluginManager<u32> = PluginManager::new();
    assert_eq!(
        m.check_dependency("/p/missing.so", Some("^1")),
        Err(DependencyFailure { message: "dependency '/p/missing.so' failed to load".to_string(), rollback: true })
    );
}

#[test]
fn dependency_without_version() {
    let mut m: PluginManager<u32> = PluginManager::new();
    m.insert(
        "host:other".to_string(),
        PluginEntry::Host { meta: PluginMeta::new("host:other".to_string(), String::new(), Vec::new()) },
    );
    assert_eq!(
        m.check_dependency("host:other", Some("*")),
        Err(DependencyFailure { message: "dependency 'host:other' does not provide version".to_string(), rollback: true })
    );
}

#[test]
fn dependency_with_invalid_version() {
    let mut m: PluginManager<u32> = PluginManager::new();
    m.insert("/p/a.so".to_string(), dynamic("alpha", "1.0", 1));
    let r = m.check_dependency("/p/a.so", Some("^1")).unwrap_err();
    assert!(r.message.starts_with("invalid version '1.0' from plugin alpha : "));
    assert!(r.rollback);
}

#[test]
fn metadata_from_library_requires_name_and_version() {
    assert_eq!(
        PluginMeta::from_library(String::new(), "1.0.0".to_string(), Vec::new()).err(),
        Some("plugin did not provide a name".to_string())
    );
    assert_eq!(
        PluginMeta::from_library("p".to_string(), String::new(), Vec::new()).err(),
        Some("plugin did not provide a version".to_string())
    );
    let m = PluginMeta::from_library("p".to_string(), "1.0.0".to_string(), vec!["loader".to_string()]).unwrap();
    assert_eq!(m.get_name(), "p");
    assert_eq!(m.get_version(), "1.0.0");
    assert_eq!(m.get_dependencies(), &vec!["loader".to_string()]);
}

#[test]
fn insert_then_unload_restores_the_registry() {
    let mut m: PluginManager<u32> = PluginManager::new();
    m.insert("/p/a.so".to_string(), dynamic("a", "1.0.0", 1));
    let before = m.list_plugins().unwrap();
    m.insert("/p/b.so".to_string(), dynamic("b", "2.0.0", 2));
    assert!(m.unload_plugin("/p/b.so").is_some());
    assert_eq!(m.list_plugins().unwrap(), before);
}
