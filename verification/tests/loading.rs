use std::collections::HashMap;

use loader_impl::loading::{LoadAction, LoadEvent, LoadSession, OpenedLibrary};
use loader_impl::manager::PluginManager;

/// A library on the simulated disk: name, version, dependencies.
type Lib = (&'static str, &'static str, Vec<&'static str>);

struct World {
    paths: HashMap<&'static str, &'static str>,
    libs: HashMap<&'static str, Lib>,
    next_handle: u32,
    log: Vec<String>,
}

impl World {
    fn new() -> Self {
        World { paths: HashMap::new(), libs: HashMap::new(), next_handle: 1, log: Vec::new() }
    }

    fn file(&mut self, path: &'static str, key: &'static str, lib: Lib) {
        self.paths.insert(path, key);
        self.paths.insert(key, key);
        self.libs.insert(key, lib);
    }

    /// Runs a whole load, as the application does, and returns its result and
    /// the keys it asked to unload.
    fn load(&mut self, m: &mut PluginManager<u32>, path: &str) -> (Result<String, String>, Vec<String>) {
        let mut session = LoadSession::new(path);
        let mut action = session.next_action();
        for _ in 0..1000 {
            let event = match action {
                LoadAction::Resolve(p) => {
                    self.log.push(format!("resolve {}", p));
                    LoadEvent::Resolved(match self.paths.get(p.as_str()) {
                        Some(k) => Ok(k.to_string()),
                        None => Err("No such file or directory (os error 2)".to_string()),
                    })
                }
                LoadAction::Open(k) => {
                    self.log.push(format!("open {}", k));
                    LoadEvent::Opened(match self.libs.get(k.as_str()) {
                        Some((n, v, d)) => {
                            let handle = self.next_handle;
                            self.next_handle += 1;
                            Ok(OpenedLibrary {
                                name: n.to_string(),
                                version: v.to_string(),
                                deps: d.iter().map(|s| s.to_string()).collect(),
                                handle,
                            })
                        }
                        None => Err("cannot open shared object file".to_string()),
                    })
                }
                LoadAction::Proceed => LoadEvent::Proceed,
                LoadAction::Finished { result, unload } => return (result, unload),
            };
            action = m.load_plugin(&mut session, event);
        }
        panic!("load did not end");
    }
}

#[test]
fn plugin_depending_on_the_loader_loads() {
    let mut w = World::new();
    w.file("./my_plugin.so", "/p/my_plugin.so", ("example_plugin", "0.1.0", vec!["loader@^0.1.0"]));
    let mut m: PluginManager<u32> = PluginManager::new();
    let (r, unload) = w.load(&mut m, "./my_plugin.so");
    assert_eq!(r, Ok("example_plugin".to_string()));
    assert!(unload.is_empty());
    assert_eq!(
        m.list_plugins().unwrap(),
        vec![
            "host:loader -> host:loader@0.1.0".to_string(),
            "/p/my_plugin.so -> example_plugin@0.1.0".to_string(),
        ]
    );
    assert_eq!(w.log, vec!["resolve ./my_plugin.so".to_string(), "open /p/my_plugin.so".to_string()]);
}

#[test]
fn loading_a_registered_plugin_returns_its_name() {
    let mut w = World::new();
    w.file("a.so", "/p/a.so", ("a", "1.0.0", vec![]));
    let mut m: PluginManager<u32> = PluginManager::new();
    assert_eq!(w.load(&mut m, "a.so").0, Ok("a".to_string()));
    let before = m.list_plugins().unwrap();
    w.log.clear();
    let (r, unload) = w.load(&mut m, "a.so");
    assert_eq!(r, Ok("a".to_string()));
    assert!(unload.is_empty());
    assert_eq!(w.log, vec!["resolve a.so".to_string()]);
    assert_eq!(m.list_plugins().unwrap(), before);
}

#[test]
fn loading_the_host_key_returns_the_loader_name() {
    let mut m: PluginManager<u32> = PluginManager::new();
    let mut session: LoadSession<u32> = LoadSession::new("host:loader");
    let action = m.load_plugin(&mut session, LoadEvent::Resolved(Ok("host:loader".to_string())));
    assert_eq!(action, LoadAction::Finished { result: Ok("host:loader".to_string()), unload: vec![] });
}

#[test]
fn load_then_unload_restores_the_registry() {
    let mut w = World::new();
    w.file("a.so", "/p/a.so", ("a", "1.0.0", vec!["b.so@^1", "loader"]));
    w.file("b.so", "/p/b.so", ("b", "1.2.0", vec![]));
    let mut m: PluginManager<u32> = PluginManager::new();
    assert_eq!(w.load(&mut m, "b.so").0, Ok("b".to_string()));
    let before = m.list_plugins().unwrap();
    assert_eq!(w.load(&mut m, "a.so").0, Ok("a".to_string()));
    assert_eq!(m.list_plugins().unwrap().len(), before.len() + 1);
    assert!(m.unload_plugin("/p/a.so").is_some());
    assert_eq!(m.list_plugins().unwrap(), before);
}

#[test]
fn unresolvable_path_fails_with_the_error() {
    let mut w = World::new();
    let mut m: PluginManager<u32> = PluginManager::new();
    let (r, _) = w.load(&mut m, "nowhere.so");
    assert_eq!(r, Err("No such file or directory (os error 2)".to_string()));
}

#[test]
fn library_that_cannot_be_opened() {
    let mut w = World::new();
    w.paths.insert("x.so", "/p/x.so");
    let mut m: PluginManager<u32> = PluginManager::new();
    let (r, _) = w.load(&mut m, "x.so");
    assert_eq!(r, Err("cannot open shared object file".to_string()));
    assert_eq!(m.list_plugins().unwrap().len(), 1);
}

#[test]
fn library_without_name_or_version_is_refused() {
    let mut w = World::new();
    w.file("n.so", "/p/n.so", ("", "1.0.0", vec![]));
    w.file("v.so", "/p/v.so", ("v", "", vec![]));
    let mut m: PluginManager<u32> = PluginManager::new();
    assert_eq!(w.load(&mut m, "n.so").0, Err("plugin did not provide a name".to_string()));
    assert_eq!(w.load(&mut m, "v.so").0, Err("plugin did not provide a version".to_string()));
    assert_eq!(m.list_plugins().unwrap().len(), 1);
}

#[test]
fn library_dependency_is_loaded_first() {
    let mut w = World::new();
    w.file("a.so", "/p/a.so", ("a", "1.0.0", vec!["b.so@^1.0", "host:loader"]));
    w.file("b.so", "/p/b.so", ("b", "1.2.0", vec![]));
    let mut m: PluginManager<u32> = PluginManager::new();
    let (r, unload) = w.load(&mut m, "a.so");
    assert_eq!(r, Ok("a".to_string()));
    assert!(unload.is_empty());
    assert_eq!(
        m.list_plugins().unwrap(),
        vec![
            "host:loader -> host:loader@0.1.0".to_string(),
            "/p/b.so -> b@1.2.0".to_string(),
            "/p/a.so -> a@1.0.0".to_string(),
        ]
    );
    assert_eq!(
        w.log,
        vec![
            "resolve a.so".to_string(),
            "open /p/a.so".to_string(),
            "resolve b.so".to_string(),
            "resolve /p/b.so".to_string(),
            "open /p/b.so".to_string(),
        ]
    );
}

#[test]
fn registered_library_dependency_is_only_checked() {
    let mut w = World::new();
    w.file("a.so", "/p/a.so", ("a", "1.0.0", vec!["b.so"]));
    w.file("b.so", "/p/b.so", ("b", "1.2.0", vec![]));
    let mut m: PluginManager<u32> = PluginManager::new();
    assert_eq!(w.load(&mut m, "b.so").0, Ok("b".to_string()));
    w.log.clear();
    assert_eq!(w.load(&mut m, "a.so").0, Ok("a".to_string()));
    assert_eq!(
        w.log,
        vec!["resolve a.so".to_string(), "open /p/a.so".to_string(), "resolve b.so".to_string()]
    );
}

#[test]
fn failed_dependency_check_unloads_what_was_loaded() {
    let mut w = World::new();
    w.file("a.so", "/p/a.so", ("a", "1.0.0", vec!["b.so@^1", "c.so@^2.0"]));
    w.file("b.so", "/p/b.so", ("b", "1.2.0", vec![]));
    w.file("c.so", "/p/c.so", ("c", "1.5.0", vec![]));
    let mut m: PluginManager<u32> = PluginManager::new();
    let (r, unload) = w.load(&mut m, "a.so");
    assert_eq!(r, Err("version mismatch for /p/c.so: 1.5.0 does not satisfy ^2.0".to_string()));
    assert_eq!(unload, vec!["/p/c.so".to_string(), "/p/b.so".to_string()]);
    assert!(!m.contains_key("/p/a.so"));
}

#[test]
fn unresolvable_dependency_unloads_what_was_loaded() {
    let mut w = World::new();
    w.file("a.so", "/p/a.so", ("a", "1.0.0", vec!["b.so", "missing.so@^1"]));
    w.file("b.so", "/p/b.so", ("b", "1.2.0", vec![]));
    let mut m: PluginManager<u32> = PluginManager::new();
    let (r, unload) = w.load(&mut m, "a.so");
    assert_eq!(
        r,
        Err("failed to canonicalize dependency 'missing.so' : No such file or directory (os error 2)".to_string())
    );
    assert_eq!(unload, vec!["/p/b.so".to_string()]);
}

#[test]
fn invalid_requirement_does_not_unload() {
    let mut w = World::new();
    w.file("a.so", "/p/a.so", ("a", "1.0.0", vec!["b.so", "loader@not-a-req"]));
    w.file("b.so", "/p/b.so", ("b", "1.2.0", vec![]));
    let mut m: PluginManager<u32> = PluginManager::new();
    let (r, unload) = w.load(&mut m, "a.so");
    assert!(r.unwrap_err().starts_with("invalid version requirement 'not-a-req' : "));
    assert!(unload.is_empty());
}

#[test]
fn unknown_host_dependency_fails() {
    let mut w = World::new();
    w.file("a.so", "/p/a.so", ("a", "1.0.0", vec!["host:renderer"]));
    let mut m: PluginManager<u32> = PluginManager::new();
    let (r, unload) = w.load(&mut m, "a.so");
    assert_eq!(r, Err("dependency 'host:renderer' failed to load".to_string()));
    assert!(unload.is_empty());
}

#[test]
fn failing_nested_load_fails_the_outer_load() {
    let mut w = World::new();
    w.file("a.so", "/p/a.so", ("a", "1.0.0", vec!["b.so", "c.so"]));
    w.file("b.so", "/p/b.so", ("b", "1.0.0", vec![]));
    w.file("c.so", "/p/c.so", ("c", "1.0.0", vec!["loader@^9"]));
    let mut m: PluginManager<u32> = PluginManager::new();
    let (r, unload) = w.load(&mut m, "a.so");
    assert_eq!(r, Err("version mismatch for host:loader: 0.1.0 does not satisfy ^9".to_string()));
    assert_eq!(unload, vec!["/p/b.so".to_string()]);
    assert!(m.contains_key("/p/b.so"));
    assert!(!m.contains_key("/p/c.so"));
}

#[test]
fn unexpected_event_changes_nothing() {
    let mut m: PluginManager<u32> = PluginManager::new();
    let mut session: LoadSession<u32> = LoadSession::new("a.so");
    let action = m.load_plugin(&mut session, LoadEvent::Proceed);
    assert_eq!(action, LoadAction::Resolve("a.so".to_string()));
    let action = m.load_plugin(&mut session, LoadEvent::Opened(Err("x".to_string())));
    assert_eq!(action, LoadAction::Resolve("a.so".to_string()));
    let action = m.load_plugin(&mut session, LoadEvent::Resolved(Ok("/p/a.so".to_string())));
    assert_eq!(action, LoadAction::Open("/p/a.so".to_string()));
}

#[test]
fn failed_nested_load_keeps_starting_entries_after_unloading() {
    let mut w = World::new();
    w.file("a.so", "/p/a.so", ("a", "1.0.0", vec!["b.so", "c.so@^2"]));
    w.file("b.so", "/p/b.so", ("b", "1.0.0", vec!["d.so"]));
    w.file("c.so", "/p/c.so", ("c", "1.0.0", vec![]));
    w.file("d.so", "/p/d.so", ("d", "1.0.0", vec![]));
    w.file("e.so", "/p/e.so", ("e", "3.0.0", vec![]));
    let mut m: PluginManager<u32> = PluginManager::new();
    assert_eq!(w.load(&mut m, "e.so").0, Ok("e".to_string()));
    let start = m.list_plugins().unwrap();
    let (r, unload) = w.load(&mut m, "a.so");
    assert_eq!(r, Err("version mismatch for /p/c.so: 1.0.0 does not satisfy ^2".to_string()));
    assert_eq!(unload, vec!["/p/c.so".to_string(), "/p/b.so".to_string()]);
    for k in &unload {
        m.unload_plugin(k);
    }
    let mut expected = start.clone();
    expected.push("/p/d.so -> d@1.0.0".to_string());
    assert_eq!(m.list_plugins().unwrap(), expected);
}
