//! What the loader knows of a plugin: its name, its version and the
//! dependencies it declares, and whether it is the host or a loaded library.

use vstd::prelude::*;
use vstd::string::*;

verus! {

/// Name, version and declared dependencies of a plugin.
pub struct PluginMeta {
    pub name: String,
    pub version: String,
    pub deps: Vec<String>,
}

/// The plain contents of a `PluginMeta`.
#[verifier::ext_equal]
pub struct MetaView {
    pub name: Seq<char>,
    pub version: Seq<char>,
    pub deps: Seq<Seq<char>>,
}

impl View for PluginMeta {
    type V = MetaView;

    open spec fn view(&self) -> MetaView {
        MetaView { name: self.name@, version: self.version@, deps: self.deps.deep_view() }
    }
}

/// Error text when a library reports no name.
pub open spec fn missing_name_message() -> Seq<char> {
    "plugin did not provide a name"@
}

/// Error text when a library reports no version.
pub open spec fn missing_version_message() -> Seq<char> {
    "plugin did not provide a version"@
}

/// What building the metadata of a freshly opened library gives: its name,
/// version and dependencies, or an error when the name or the version is empty.
pub open spec fn library_meta(name: Seq<char>, version: Seq<char>, deps: Seq<Seq<char>>) -> Result<MetaView, Seq<char>> {
    if name.len() == 0 {
        Err(missing_name_message())
    } else if version.len() == 0 {
        Err(missing_version_message())
    } else {
        Ok(MetaView { name, version, deps })
    }
}

/// A library is refused exactly when its name or its version is empty, and
/// otherwise its metadata is what it reported, unchanged.
pub proof fn lemma_library_meta_accepts(name: Seq<char>, version: Seq<char>, deps: Seq<Seq<char>>)
    ensures
        library_meta(name, version, deps) is Ok <==> (name.len() > 0 && version.len() > 0),
        name.len() > 0 && version.len() > 0 ==> library_meta(name, version, deps)
            == Ok::<MetaView, Seq<char>>(MetaView { name, version, deps }),
        name.len() == 0 ==> library_meta(name, version, deps) == Err::<MetaView, Seq<char>>("plugin did not provide a name"@),
        name.len() > 0 && version.len() == 0 ==> library_meta(name, version, deps)
            == Err::<MetaView, Seq<char>>("plugin did not provide a version"@),
{
}

impl PluginMeta {
    /// Bundles a name, a version and a list of dependencies.
    pub fn new(name: String, version: String, deps: Vec<String>) -> (r: Self)
        ensures
            r.name == name,
            r.version == version,
            r.deps == deps,
    {
        PluginMeta { name, version, deps }
    }

    /// The metadata a library reported through its getters: refused when the
    /// name or the version is empty.
    pub fn from_library(name: String, version: String, deps: Vec<String>) -> (r: Result<Self, String>)
        ensures
            match r {
                Ok(m) => library_meta(name@, version@, deps.deep_view()) == Ok::<MetaView, Seq<char>>(m@)
                    && m.name == name && m.version == version && m.deps == deps,
                Err(e) => library_meta(name@, version@, deps.deep_view()) == Err::<MetaView, Seq<char>>(e@),
            },
            name@.len() > 0 && version@.len() > 0 ==> (r matches Ok(m) && m.name == name && m.version == version && m.deps == deps),
            name@.len() == 0 ==> (r matches Err(e) && e@ == "plugin did not provide a name"@),
            name@.len() > 0 && version@.len() == 0 ==> (r matches Err(e) && e@ == "plugin did not provide a version"@),
    {
        if name.as_str().is_empty() {
            return Err(String::from_str("plugin did not provide a name"));
        }
        if version.as_str().is_empty() {
            return Err(String::from_str("plugin did not provide a version"));
        }
        Ok(PluginMeta { name, version, deps })
    }

    pub fn get_name(&self) -> (r: &String)
        ensures
            r == &self.name,
    {
        &self.name
    }

    pub fn get_version(&self) -> (r: &String)
        ensures
            r == &self.version,
    {
        &self.version
    }

    pub fn get_dependencies(&self) -> (r: &Vec<String>)
        ensures
            r == &self.deps,
    {
        &self.deps
    }
}

/// A registered plugin: the host itself, or a library that was loaded and
/// whose handle `H` keeps it alive.
pub enum PluginEntry<H> {
    Host { meta: PluginMeta },
    Dynamic { meta: PluginMeta, handle: H },
}

/// The plain contents of a `PluginEntry`.
pub enum EntryView<H> {
    Host(MetaView),
    Dynamic(MetaView, H),
}

impl<H> EntryView<H> {
    pub open spec fn meta(self) -> MetaView {
        match self {
            EntryView::Host(m) => m,
            EntryView::Dynamic(m, _) => m,
        }
    }
}

impl<H> View for PluginEntry<H> {
    type V = EntryView<H>;

    open spec fn view(&self) -> EntryView<H> {
        match self {
            PluginEntry::Host { meta } => EntryView::Host(meta@),
            PluginEntry::Dynamic { meta, handle } => EntryView::Dynamic(meta@, *handle),
        }
    }
}

impl<H> PluginEntry<H> {
    /// The entry's metadata.
    pub fn meta(&self) -> (r: &PluginMeta)
        ensures
            r@ == self@.meta(),
    {
        match self {
            PluginEntry::Host { meta } => meta,
            PluginEntry::Dynamic { meta, .. } => meta,
        }
    }

    /// The entry's name.
    pub fn name(&self) -> (r: &String)
        ensures
            r@ == self@.meta().name,
    {
        &self.meta().name
    }

    /// The entry's version.
    pub fn version(&self) -> (r: &String)
        ensures
            r@ == self@.meta().version,
    {
        &self.meta().version
    }

    /// Whether the entry is the host.
    pub fn is_host(&self) -> (r: bool)
        ensures
            r == (self@ is Host),
    {
        match self {
            PluginEntry::Host { .. } => true,
            PluginEntry::Dynamic { .. } => false,
        }
    }
}

} // verus!
