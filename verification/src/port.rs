//! The port through which the host calls a loaded plugin's processing entry
//! points, and the loaded plugin instance that owns it.

use vstd::prelude::*;

verus! {

/// Which processing entry points the library exports.
#[derive(Clone, Copy)]
pub struct PortSymbols {
    pub process: bool,
    pub process2: bool,
}

/// The entry points of a loaded library (`V`, which also keeps the library
/// loaded), together with which of them it exports.
pub struct PluginPort<V> {
    vtable: V,
    symbols: PortSymbols,
}

impl<V> PluginPort<V> {
    pub closed spec fn spec_vtable(&self) -> V {
        self.vtable
    }

    pub closed spec fn spec_symbols(&self) -> PortSymbols {
        self.symbols
    }

    /// A port over `vtable`; the library must export `process`.
    pub fn new(vtable: V, symbols: PortSymbols) -> (r: Self)
        requires
            symbols.process,
        ensures
            r.spec_vtable() == vtable,
            r.spec_symbols() == symbols,
    {
        let res = PluginPort { vtable, symbols };
        res.check_vtable();
        res
    }

    /// A port always has its `process` entry point.
    fn check_vtable(&self)
        requires
            self.symbols.process,
    {
    }

    /// The entry points.
    pub fn vtable(&self) -> (r: &V)
        ensures
            *r == self.spec_vtable(),
    {
        &self.vtable
    }

    /// Which entry points the library exports; `process` always.
    pub fn symbols(&self) -> (r: PortSymbols)
        ensures
            r == self.spec_symbols(),
    {
        self.symbols
    }
}

/// A loaded plugin, reached through its port.
pub struct PluginInstance<V> {
    port: PluginPort<V>,
}

impl<V> PluginInstance<V> {
    pub closed spec fn spec_port(&self) -> PluginPort<V> {
        self.port
    }

    /// A plugin instance that owns `port`.
    pub fn new(port: PluginPort<V>) -> (r: Self)
        ensures
            r.spec_port() == port,
    {
        PluginInstance { port }
    }

    /// The plugin's port.
    pub fn get_port(&self) -> (r: &PluginPort<V>)
        ensures
            *r == self.spec_port(),
    {
        &self.port
    }
}

} // verus!
