# loader_impl

A plugin loader. The verified library (`src/`) keeps the registry of plugins
(the host itself under `host:loader`, and libraries under their canonical
paths), reads the dependencies a plugin declares (`<path>@<requirement>`),
checks version requirements with the `semver` crate, and drives the loading of
a plugin and of its library dependencies as a state machine whose steps are
proved against a transition function (`loading::load_transition`).

`app/` does the I/O the machine asks for: resolving paths, opening shared
libraries with `libloading`, calling their entry points, and holding the
process-wide manager.

Modules of the library:

- `text`: character-level string helpers.
- `semver_bridge`: parsing, matching and printing versions through `semver`.
- `plugin`: plugin metadata and registry entries.
- `dependency`: splitting a declared dependency, host references.
- `manager`: the registry: listing, unloading, calling, dependency checks.
- `loading`: the load state machine and its laws.
- `global`: the set-once slot for the process-wide manager.
- `port`: the processing port of a loaded plugin.
