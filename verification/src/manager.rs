//! The registry of plugins: which keys (canonical library paths, or
//! `host:<name>` for the host) are registered, in the order they were
//! registered, and what each entry holds.

use vstd::prelude::*;
use vstd::string::*;

use crate::plugin::{EntryView, MetaView, PluginEntry, PluginMeta};
use crate::semver_bridge::{
    parse_requirement, parse_version, requirement_matches, requirement_to_string,
    semver_req_display, semver_req_matches, semver_req_parse_error, semver_version_parse_error,
    version_to_string,
};
use crate::text::{option_text, str_eq};

verus! {

/// A registry as plain values: keys with their entries, in registration order.
pub type RegistryView<H> = Seq<(Seq<char>, EntryView<H>)>;

/// The keys of a registry, in order.
pub open spec fn registry_keys<H>(r: RegistryView<H>) -> Seq<Seq<char>> {
    r.map_values(|e: (Seq<char>, EntryView<H>)| e.0)
}

/// No key is registered twice.
pub open spec fn registry_wf<H>(r: RegistryView<H>) -> bool {
    forall|i: int, j: int| 0 <= i < j < r.len() ==> r[i].0 != r[j].0
}

/// `key` is registered.
pub open spec fn registry_contains<H>(r: RegistryView<H>, key: Seq<char>) -> bool {
    exists|i: int| 0 <= i < r.len() && r[i].0 == key
}

/// The position of `key`, when it is registered.
pub open spec fn registry_index<H>(r: RegistryView<H>, key: Seq<char>) -> int {
    choose|i: int| 0 <= i < r.len() && r[i].0 == key
}

/// The entry registered under `key`.
pub open spec fn registry_lookup<H>(r: RegistryView<H>, key: Seq<char>) -> Option<EntryView<H>> {
    if registry_contains(r, key) {
        Some(r[registry_index(r, key)].1)
    } else {
        None
    }
}

/// The registry once `key` is unregistered.
pub open spec fn registry_remove<H>(r: RegistryView<H>, key: Seq<char>) -> RegistryView<H> {
    if registry_contains(r, key) {
        r.remove(registry_index(r, key))
    } else {
        r
    }
}

/// The registry once `entry` is registered under `key`: an entry already
/// registered under `key` is replaced where it stands, otherwise the new one
/// comes last.
pub open spec fn registry_insert<H>(r: RegistryView<H>, key: Seq<char>, entry: EntryView<H>) -> RegistryView<H> {
    if registry_contains(r, key) {
        r.update(registry_index(r, key), (key, entry))
    } else {
        r.push((key, entry))
    }
}

/// Key under which the loader itself is registered.
pub open spec fn host_loader_key() -> Seq<char> {
    "host:loader"@
}

/// The loader's own entry: the host, named after its key, at the loader's
/// version, without dependencies.
pub open spec fn host_loader_entry<H>() -> EntryView<H> {
    EntryView::Host(MetaView {
        name: host_loader_key(),
        version: crate::loader_version_text(),
        deps: Seq::empty(),
    })
}

/// The loader is registered under `host:loader` with its own entry.
pub open spec fn registry_has_host<H>(r: RegistryView<H>) -> bool {
    registry_lookup(r, host_loader_key()) == Some(host_loader_entry::<H>())
}

/// A fresh registry: the loader itself, at its version, with no dependencies.
pub open spec fn initial_registry<H>() -> RegistryView<H> {
    seq![(host_loader_key(), host_loader_entry::<H>())]
}

/// One line of the plugin listing: `<key> -> <name>@<version>`.
pub open spec fn listing_line(key: Seq<char>, meta: MetaView) -> Seq<char> {
    key + " -> "@ + meta.name + "@"@ + meta.version
}

/// A listing line is the key, ` -> `, the name, `@` and the version, each
/// as it stands: it starts with the key and ends with the whole version.
pub proof fn lemma_listing_line_parts(key: Seq<char>, meta: MetaView)
    ensures
        listing_line(key, meta) == key + " -> "@ + meta.name + "@"@ + meta.version,
        listing_line(key, meta).len() == key.len() + 4 + meta.name.len() + 1 + meta.version.len(),
        listing_line(key, meta).subrange(0, key.len() as int) == key,
        listing_line(key, meta).subrange(
            listing_line(key, meta).len() - meta.version.len(),
            listing_line(key, meta).len() as int,
        ) == meta.version,
{
    reveal_strlit(" -> ");
    reveal_strlit("@");
    let l = listing_line(key, meta);
    assert(l.subrange(0, key.len() as int) =~= key);
    assert(l.subrange(l.len() - meta.version.len(), l.len() as int) =~= meta.version);
}

/// What calling a plugin by key answers (the process interface was removed,
/// so no call succeeds).
pub open spec fn call_answer<H>(r: RegistryView<H>, key: Seq<char>) -> Seq<char> {
    match registry_lookup(r, key) {
        Some(EntryView::Dynamic(_, _)) => "plugin process API removed"@,
        Some(EntryView::Host(_)) => "cannot call host entry"@,
        None => "plugin not loaded"@,
    }
}

/// Error when a dependency is not registered after it should have been loaded.
pub open spec fn dependency_failed_message(key: Seq<char>) -> Seq<char> {
    "dependency '"@ + key + "' failed to load"@
}

/// Error when a dependency's version requirement does not parse.
pub open spec fn invalid_requirement_message(req: Seq<char>, err: Seq<char>) -> Seq<char> {
    "invalid version requirement '"@ + req + "' : "@ + err
}

/// Error when the dependency has an empty version.
pub open spec fn missing_dependency_version_message(key: Seq<char>) -> Seq<char> {
    "dependency '"@ + key + "' does not provide version"@
}

/// Error when the dependency's version does not parse.
pub open spec fn invalid_version_message(version: Seq<char>, name: Seq<char>, err: Seq<char>) -> Seq<char> {
    "invalid version '"@ + version + "' from plugin "@ + name + " : "@ + err
}

/// Error when the dependency's version does not satisfy the requirement.
pub open spec fn version_mismatch_message(key: Seq<char>, version: Seq<char>, req: Seq<char>) -> Seq<char> {
    "version mismatch for "@ + key + ": "@ + version + " does not satisfy "@ + req
}

/// Why a dependency was refused, and whether the dependencies loaded so far
/// for the same plugin are to be unloaded.
#[derive(Debug, PartialEq, Eq)]
pub struct DependencyFailure {
    pub message: String,
    pub rollback: bool,
}

impl View for DependencyFailure {
    type V = (Seq<char>, bool);

    open spec fn view(&self) -> (Seq<char>, bool) {
        (self.message@, self.rollback)
    }
}

/// Outcome of checking that `key` is registered and, when a requirement is
/// given, that its version satisfies it.
pub open spec fn dependency_check<H>(r: RegistryView<H>, key: Seq<char>, req: Option<Seq<char>>) -> Result<(), (Seq<char>, bool)> {
    match registry_lookup(r, key) {
        None => Err((dependency_failed_message(key), true)),
        Some(entry) => match req {
            None => Ok(()),
            Some(q) => match semver_req_parse_error(q) {
                Some(err) => Err((invalid_requirement_message(q, err), false)),
                None => {
                    let version = entry.meta().version;
                    if version.len() == 0 {
                        Err((missing_dependency_version_message(key), true))
                    } else {
                        match semver_version_parse_error(version) {
                            Some(err) => Err((invalid_version_message(version, entry.meta().name, err), true)),
                            None => if semver_req_matches(q, version) {
                                Ok(())
                            } else {
                                Err((version_mismatch_message(key, version, semver_req_display(q)), true))
                            },
                        }
                    }
                },
            },
        },
    }
}

/// Registering keeps keys unique; afterwards `key` holds `entry` and every
/// other key holds what it held before.
pub proof fn lemma_registry_insert<H>(r: RegistryView<H>, key: Seq<char>, entry: EntryView<H>)
    requires
        registry_wf(r),
    ensures
        registry_wf(registry_insert(r, key, entry)),
        registry_lookup(registry_insert(r, key, entry), key) == Some(entry),
        forall|k: Seq<char>| k != key ==> #[trigger] registry_lookup(registry_insert(r, key, entry), k) == registry_lookup(r, k),
        forall|k: Seq<char>| #[trigger] registry_contains(r, k) ==> registry_contains(registry_insert(r, key, entry), k),
{
    let r2 = registry_insert(r, key, entry);
    if registry_contains(r, key) {
        let i = registry_index(r, key);
        assert forall|a: int, b: int| 0 <= a < b < r2.len() implies r2[a].0 != r2[b].0 by {
            assert(r[a].0 != r[b].0);
        }
        lemma_registry_index_unique(r2, key, i);
        assert forall|k: Seq<char>| k != key implies #[trigger] registry_lookup(r2, k) == registry_lookup(r, k) by {
            if registry_contains(r, k) {
                let j = registry_index(r, k);
                assert(j != i);
                assert(r2[j] == r[j]);
                lemma_registry_index_unique(r2, k, j);
            }
            if registry_contains(r2, k) {
                let j = registry_index(r2, k);
                assert(j != i);
                assert(r2[j] == r[j]);
            }
        }
        assert forall|k: Seq<char>| #[trigger] registry_contains(r, k) implies registry_contains(r2, k) by {
            let j = registry_index(r, k);
            if j != i {
                assert(r2[j] == r[j]);
            } else {
                assert(r2[i].0 == key);
            }
        }
    } else {
        let i = r.len() as int;
        assert forall|a: int, b: int| 0 <= a < b < r2.len() implies r2[a].0 != r2[b].0 by {
            if b < i {
                assert(r[a].0 != r[b].0);
            } else {
                assert(r2[a] == r[a]);
            }
        }
        lemma_registry_index_unique(r2, key, i);
        assert forall|k: Seq<char>| k != key implies #[trigger] registry_lookup(r2, k) == registry_lookup(r, k) by {
            if registry_contains(r, k) {
                let j = registry_index(r, k);
                assert(r2[j] == r[j]);
                lemma_registry_index_unique(r2, k, j);
            }
            if registry_contains(r2, k) {
                let j = registry_index(r2, k);
                assert(j != i);
                assert(r2[j] == r[j]);
            }
        }
        assert forall|k: Seq<char>| #[trigger] registry_contains(r, k) implies registry_contains(r2, k) by {
            let j = registry_index(r, k);
            assert(r2[j] == r[j]);
        }
    }
}

/// Unregistering keeps keys unique; afterwards `key` is unknown and every
/// other key holds what it held before.
pub proof fn lemma_registry_remove<H>(r: RegistryView<H>, key: Seq<char>)
    requires
        registry_wf(r),
    ensures
        registry_wf(registry_remove(r, key)),
        !registry_contains(registry_remove(r, key), key),
        forall|k: Seq<char>| k != key ==> #[trigger] registry_lookup(registry_remove(r, key), k) == registry_lookup(r, k),
{
    if registry_contains(r, key) {
        let i = registry_index(r, key);
        let r2 = r.remove(i);
        assert forall|a: int, b: int| 0 <= a < b < r2.len() implies r2[a].0 != r2[b].0 by {
            if b < i {
                assert(r[a].0 != r[b].0);
            } else if a < i {
                assert(r[a].0 != r[b + 1].0);
            } else {
                assert(r[a + 1].0 != r[b + 1].0);
            }
        }
        if registry_contains(r2, key) {
            let j = registry_index(r2, key);
            if j < i {
                assert(r[j].0 != r[i].0);
            } else {
                assert(r[i].0 != r[j + 1].0);
            }
        }
        assert forall|k: Seq<char>| k != key implies #[trigger] registry_lookup(r2, k) == registry_lookup(r, k) by {
            if registry_contains(r, k) {
                let j = registry_index(r, k);
                assert(j != i);
                if j < i {
                    assert(r2[j] == r[j]);
                    lemma_registry_index_unique(r2, k, j);
                } else {
                    assert(r2[j - 1] == r[j]);
                    lemma_registry_index_unique(r2, k, j - 1);
                }
            }
            if registry_contains(r2, k) {
                let j = registry_index(r2, k);
                if j < i {
                    assert(r2[j] == r[j]);
                } else {
                    assert(r2[j] == r[j + 1]);
                }
            }
        }
    }
}

/// Unregistering a key that was just registered, where it was not
/// registered before, gives back the registry as it was.
pub proof fn lemma_insert_then_remove<H>(r: RegistryView<H>, key: Seq<char>, entry: EntryView<H>)
    requires
        registry_wf(r),
        !registry_contains(r, key),
    ensures
        registry_remove(registry_insert(r, key, entry), key) == r,
{
    let r2 = r.push((key, entry));
    lemma_registry_index_unique(r2, key, r.len() as int);
    assert(r2.remove(r.len() as int) =~= r);
}

/// In a registry without repeated keys, the position of a key is the only
/// one that holds it.
pub proof fn lemma_registry_index_unique<H>(r: RegistryView<H>, key: Seq<char>, i: int)
    requires
        registry_wf(r),
        0 <= i < r.len(),
        r[i].0 == key,
    ensures
        registry_contains(r, key),
        registry_index(r, key) == i,
        registry_lookup(r, key) == Some(r[i].1),
{
    let j = registry_index(r, key);
    assert(0 <= j < r.len() && r[j].0 == key);
    if j < i {
        assert(r[j].0 != r[i].0);
    } else if i < j {
        assert(r[i].0 != r[j].0);
    }
}

/// What checking a dependency answers, case by case: an unregistered
/// dependency fails (to be rolled back); without a requirement a registered
/// one passes; a requirement that does not parse fails (without rollback); an
/// empty or unparsable version fails (to be rolled back); otherwise the check
/// passes exactly when the version satisfies the whole requirement, and fails
/// with the mismatch (to be rolled back) when it does not.
pub proof fn lemma_dependency_check_cases<H>(r: RegistryView<H>, key: Seq<char>, req: Option<Seq<char>>)
    ensures
        !registry_contains(r, key) ==> dependency_check(r, key, req)
            == Err::<(), (Seq<char>, bool)>(("dependency '"@ + key + "' failed to load"@, true)),
        registry_contains(r, key) && req is None ==> dependency_check(r, key, req) == Ok::<(), (Seq<char>, bool)>(()),
        ({
            let entry = registry_lookup(r, key)->0;
            let version = entry.meta().version;
            registry_contains(r, key) && req is Some ==> {
                let q = req->0;
                match semver_req_parse_error(q) {
                    Some(err) => dependency_check(r, key, req)
                        == Err::<(), (Seq<char>, bool)>(("invalid version requirement '"@ + q + "' : "@ + err, false)),
                    None => if version.len() == 0 {
                        dependency_check(r, key, req)
                            == Err::<(), (Seq<char>, bool)>(("dependency '"@ + key + "' does not provide version"@, true))
                    } else {
                        match semver_version_parse_error(version) {
                            Some(err) => dependency_check(r, key, req) == Err::<(), (Seq<char>, bool)>((
                                "invalid version '"@ + version + "' from plugin "@ + entry.meta().name + " : "@ + err,
                                true,
                            )),
                            None => {
                                &&& (dependency_check(r, key, req) is Ok <==> semver_req_matches(q, version))
                                &&& !semver_req_matches(q, version) ==> dependency_check(r, key, req)
                                    == Err::<(), (Seq<char>, bool)>((
                                        "version mismatch for "@ + key + ": "@ + version + " does not satisfy "@
                                            + semver_req_display(q),
                                        true,
                                    ))
                            },
                        }
                    },
                }
            }
        }),
{
}

/// A key with its entry.
pub struct Registration<H> {
    pub key: String,
    pub entry: PluginEntry<H>,
}

/// The registry of plugins, the host first.
pub struct PluginManager<H> {
    plugins: Vec<Registration<H>>,
}

impl<H> View for PluginManager<H> {
    type V = RegistryView<H>;

    closed spec fn view(&self) -> RegistryView<H> {
        self.plugins@.map_values(|p: Registration<H>| (p.key@, p.entry@))
    }
}

/// Appends the three pieces of text.
fn join3(a: &str, b: &str, c: &str) -> (r: String)
    ensures
        r@ == a@ + b@ + c@,
{
    let mut s = String::from_str(a);
    s.append(b);
    s.append(c);
    s
}

impl<H> PluginManager<H> {
    /// No key is registered twice, and the loader itself stays registered.
    pub open spec fn wf(&self) -> bool {
        registry_wf(self@) && registry_has_host(self@)
    }

    /// A registry holding only the loader itself, under `host:loader`, at
    /// the loader's version.
    pub fn new() -> (r: Self)
        ensures
            r@ == initial_registry::<H>(),
            r.wf(),
    {
        let key = String::from_str("host:loader");
        let name = String::from_str("host:loader");
        let version = String::from_str(crate::loader_version());
        let meta = PluginMeta::new(name, version, Vec::new());
        let mut plugins: Vec<Registration<H>> = Vec::new();
        plugins.push(Registration { key, entry: PluginEntry::Host { meta } });
        let r = PluginManager { plugins };
        proof {
            assert(meta.deps.deep_view() =~= Seq::<Seq<char>>::empty());
            assert(r@ =~= initial_registry::<H>());
            lemma_registry_index_unique(r@, host_loader_key(), 0);
        }
        r
    }

    /// Position of `key` in the registry.
    fn position(&self, key: &str) -> (r: Option<usize>)
        requires
            self.wf(),
        ensures
            match r {
                Some(i) => registry_contains(self@, key@) && i as int == registry_index(self@, key@)
                    && i < self@.len(),
                None => !registry_contains(self@, key@),
            },
    {
        let n = self.plugins.len();
        let mut i: usize = 0;
        while i < n
            invariant
                n == self.plugins@.len(),
                i <= n,
                self.wf(),
                forall|j: int| 0 <= j < i ==> self@[j].0 != key@,
            decreases n - i,
        {
            if str_eq(self.plugins[i].key.as_str(), key) {
                proof {
                    assert(self@[i as int].0 == key@);
                    let k = registry_index(self@, key@);
                    assert(0 <= k < self@.len() && self@[k].0 == key@);
                    if k != i as int {
                        if k < i as int {
                            assert(self@[k].0 != key@);
                        } else {
                            assert(self@[i as int].0 != self@[k].0);
                        }
                    }
                }
                return Some(i);
            }
            i = i + 1;
        }
        None
    }

    /// Whether `key` is registered.
    pub fn contains_key(&self, key: &str) -> (r: bool)
        requires
            self.wf(),
        ensures
            r == registry_contains(self@, key@),
    {
        self.position(key).is_some()
    }

    /// Registers `entry` under `key`; an entry already registered under
    /// `key` is replaced in place and handed back.
    pub fn insert(&mut self, key: String, entry: PluginEntry<H>) -> (r: Option<PluginEntry<H>>)
        requires
            old(self).wf(),
            key@ != host_loader_key(),
        ensures
            final(self).wf(),
            final(self)@ == registry_insert(old(self)@, key@, entry@),
            match r {
                Some(e) => registry_lookup(old(self)@, key@) == Some(e@),
                None => registry_lookup(old(self)@, key@) is None,
            },
    {
        let ghost k = key@;
        let ghost e = entry@;
        let ghost old_view = self@;
        proof {
            lemma_registry_insert(old_view, k, e);
        }
        match self.position(key.as_str()) {
            Some(i) => {
                let replaced = self.plugins.remove(i);
                self.plugins.insert(i, Registration { key, entry });
                proof {
                    assert(self@ =~= old_view.update(i as int, (k, e)));
                }
                Some(replaced.entry)
            },
            None => {
                self.plugins.push(Registration { key, entry });
                proof {
                    assert(self@ =~= old_view.push((k, e)));
                }
                None
            },
        }
    }

    /// Unregisters `key` and hands back its entry, so that the caller can
    /// notify and release a loaded library. The loader's own entry
    /// (`host:loader`) is never unregistered: a library's path never resolves
    /// to it. Nothing happens when `key` is not registered.
    pub fn unload_plugin(&mut self, key: &str) -> (r: Option<PluginEntry<H>>)
        requires
            old(self).wf(),
        ensures
            final(self).wf(),
            key@ == host_loader_key() ==> final(self)@ == old(self)@ && r is None,
            key@ != host_loader_key() ==> final(self)@ == registry_remove(old(self)@, key@) && match r {
                Some(e) => registry_lookup(old(self)@, key@) == Some(e@),
                None => registry_lookup(old(self)@, key@) is None,
            },
    {
        if str_eq(key, "host:loader") {
            proof {
                reveal_strlit("host:loader");
            }
            return None;
        }
        proof {
            reveal_strlit("host:loader");
            lemma_registry_remove(self@, key@);
        }
        match self.position(key) {
            Some(i) => {
                let ghost old_view = self@;
                let removed = self.plugins.remove(i);
                proof {
                    assert(self@ =~= old_view.remove(i as int));
                }
                Some(removed.entry)
            },
            None => None,
        }
    }

    /// The entry registered under `key`.
    pub fn get(&self, key: &str) -> (r: Option<&PluginEntry<H>>)
        requires
            self.wf(),
        ensures
            match r {
                Some(e) => registry_lookup(self@, key@) == Some(e@),
                None => registry_lookup(self@, key@) is None,
            },
    {
        match self.position(key) {
            Some(i) => Some(&self.plugins[i].entry),
            None => None,
        }
    }

    /// One line per registered plugin, in registration order:
    /// `<key> -> <name>@<version>`.
    pub fn list_plugins(&self) -> (r: Result<Vec<String>, String>)
        ensures
            r is Ok,
            r->Ok_0.len() == self@.len(),
            forall|i: int| 0 <= i < self@.len() ==>
                #[trigger] r->Ok_0[i]@ == listing_line(self@[i].0, self@[i].1.meta()),
            forall|i: int| 0 <= i < self@.len() ==>
                #[trigger] r->Ok_0[i]@ == self@[i].0 + " -> "@ + self@[i].1.meta().name + "@"@ + self@[i].1.meta().version,
    {
        let mut out: Vec<String> = Vec::new();
        let n = self.plugins.len();
        let mut i: usize = 0;
        while i < n
            invariant
                n == self.plugins@.len(),
                i <= n,
                out.len() == i,
                forall|j: int| 0 <= j < i ==> #[trigger] out[j]@ == listing_line(self@[j].0, self@[j].1.meta()),
            decreases n - i,
        {
            let p = &self.plugins[i];
            let mut line = join3(p.key.as_str(), " -> ", p.entry.name().as_str());
            line.append("@");
            line.append(p.entry.version().as_str());
            proof {
                assert(line@ =~= listing_line(self@[i as int].0, self@[i as int].1.meta()));
            }
            out.push(line);
            i = i + 1;
        }
        Ok(out)
    }

    /// Calls a registered plugin by key. The process interface was removed:
    /// a loaded library answers that, the host that it cannot be called, and
    /// an unknown key that it is not loaded.
    pub fn call_plugin_by_path(&self, key: &str, input: &[u8]) -> (r: Result<String, String>)
        requires
            self.wf(),
        ensures
            r is Err,
            r->Err_0@ == call_answer(self@, key@),
            !registry_contains(self@, key@) ==> r->Err_0@ == "plugin not loaded"@,
            registry_lookup(self@, key@) matches Some(e) && e is Host ==> r->Err_0@ == "cannot call host entry"@,
            registry_lookup(self@, key@) matches Some(e) && e is Dynamic ==> r->Err_0@ == "plugin process API removed"@,
    {
        match self.position(key) {
            Some(i) => {
                if self.plugins[i].entry.is_host() {
                    Err(String::from_str("cannot call host entry"))
                } else {
                    Err(String::from_str("plugin process API removed"))
                }
            },
            None => Err(String::from_str("plugin not loaded")),
        }
    }

    /// Checks that `key` is registered and that its version satisfies `req`,
    /// when one is given.
    pub fn check_dependency(&self, key: &str, req: Option<&str>) -> (r: Result<(), DependencyFailure>)
        requires
            self.wf(),
        ensures
            match r {
                Ok(()) => dependency_check(self@, key@, option_text(req)) == Ok::<(), (Seq<char>, bool)>(()),
                Err(f) => dependency_check(self@, key@, option_text(req)) == Err::<(), (Seq<char>, bool)>(f@),
            },
            !registry_contains(self@, key@) ==> (r matches Err(f) && f.rollback
                && f.message@ == "dependency '"@ + key@ + "' failed to load"@),
            registry_contains(self@, key@) && req is None ==> r is Ok,
            ({
                let version = registry_lookup(self@, key@)->0.meta().version;
                registry_contains(self@, key@) && (req matches Some(q) && semver_req_parse_error(q@) is None)
                    && version.len() > 0 && semver_version_parse_error(version) is None
                    ==> (r is Ok <==> semver_req_matches(req->0@, version))
            }),
    {
        let i = match self.position(key) {
            Some(i) => i,
            None => {
                let message = join3("dependency '", key, "' failed to load");
                return Err(DependencyFailure { message, rollback: true });
            },
        };
        let q = match req {
            None => return Ok(()),
            Some(q) => q,
        };
        let parsed_req = match parse_requirement(q) {
            Ok(p) => p,
            Err(e) => {
                let mut message = join3("invalid version requirement '", q, "' : ");
                message.append(e.as_str());
                return Err(DependencyFailure { message, rollback: false });
            },
        };
        let entry = &self.plugins[i].entry;
        let version = entry.version();
        if version.as_str().is_empty() {
            let message = join3("dependency '", key, "' does not provide version");
            return Err(DependencyFailure { message, rollback: true });
        }
        let parsed_version = match parse_version(version.as_str()) {
            Ok(v) => v,
            Err(e) => {
                let mut message = join3("invalid version '", version.as_str(), "' from plugin ");
                message.append(entry.name().as_str());
                message.append(" : ");
                message.append(e.as_str());
                return Err(DependencyFailure { message, rollback: true });
            },
        };
        if requirement_matches(&parsed_req, &parsed_version) {
            Ok(())
        } else {
            let mut message = join3("version mismatch for ", key, ": ");
            message.append(version_to_string(&parsed_version).as_str());
            message.append(" does not satisfy ");
            message.append(requirement_to_string(&parsed_req).as_str());
            Err(DependencyFailure { message, rollback: true })
        }
    }
}

} // verus!
