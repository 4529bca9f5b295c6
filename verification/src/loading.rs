//! Loading a plugin, one step at a time.
//!
//! Loading resolves the plugin's path to its canonical key; when that key is
//! registered already, the load ends there with the registered plugin's name.
//! Otherwise it opens the library and reads what it declares, then walks its
//! dependencies: a host dependency
//! (`loader`, `host:<name>`) must be registered and satisfy its version
//! requirement; a library dependency is resolved, loaded first when it is not
//! registered yet (which nests a whole load), and then checked the same way.
//! When a dependency fails, the dependencies that this plugin itself caused to
//! be loaded are queued for unloading, most recent first (not when the failure
//! is a version requirement that does not parse). A plugin is registered only
//! when its own load completes, so a library that depends on itself, directly
//! or through others, starts nested loads of itself without end.
//!
//! Resolving paths and opening libraries is work for the caller: a
//! `LoadSession` says what it needs next (`LoadAction`), and the caller hands
//! the answer back (`LoadEvent`) to `PluginManager::load_plugin`, which takes
//! one step of the load.

use vstd::prelude::*;
use vstd::string::*;

use crate::dependency::{host_key, host_key_of, is_host_reference, parse_dependency, split_dependency};
use crate::manager::{
    dependency_check, host_loader_key, registry_contains, registry_has_host, registry_insert,
    registry_lookup, registry_remove, registry_wf,
    PluginManager, RegistryView,
};
use crate::plugin::{library_meta, EntryView, MetaView, PluginEntry, PluginMeta};
use crate::semver_bridge::semver_req_parse_error;
use crate::text::{has_prefix, join_str, option_text};

verus! {

/// Where a plugin's load stands.
pub enum LoadStage {
    /// Waiting for the canonical key of the plugin's path.
    Resolve,
    /// Waiting for the library at the key to be opened.
    Open,
    /// Walking the declared dependencies.
    Dependencies,
    /// Waiting for the canonical key of a library dependency.
    ResolveDependency { path: String, req: Option<String> },
    /// Waiting for a nested load of a library dependency to end.
    AwaitDependency { key: String, req: Option<String> },
}

/// `LoadStage` as plain values.
pub enum StageView {
    Resolve,
    Open,
    Dependencies,
    ResolveDependency(Seq<char>, Option<Seq<char>>),
    AwaitDependency(Seq<char>, Option<Seq<char>>),
}

impl View for LoadStage {
    type V = StageView;

    open spec fn view(&self) -> StageView {
        match self {
            LoadStage::Resolve => StageView::Resolve,
            LoadStage::Open => StageView::Open,
            LoadStage::Dependencies => StageView::Dependencies,
            LoadStage::ResolveDependency { path, req } => StageView::ResolveDependency(path@, req.deep_view()),
            LoadStage::AwaitDependency { key, req } => StageView::AwaitDependency(key@, req.deep_view()),
        }
    }
}

/// The load of one plugin.
pub struct LoadFrame<H> {
    path: String,
    key: String,
    meta: PluginMeta,
    handle: Option<H>,
    next_dep: usize,
    loaded: Vec<String>,
    stage: LoadStage,
}

/// `LoadFrame` as plain values: the path asked for, its key, what the library
/// declared, its handle, the index of the dependency being handled, the keys
/// of the dependencies this load caused to be loaded, and the stage.
#[verifier::ext_equal]
pub struct FrameView<H> {
    pub path: Seq<char>,
    pub key: Seq<char>,
    pub meta: MetaView,
    pub handle: Option<H>,
    pub next_dep: nat,
    pub loaded: Seq<Seq<char>>,
    pub stage: StageView,
}

impl<H> View for LoadFrame<H> {
    type V = FrameView<H>;

    closed spec fn view(&self) -> FrameView<H> {
        FrameView {
            path: self.path@,
            key: self.key@,
            meta: self.meta@,
            handle: self.handle,
            next_dep: self.next_dep as nat,
            loaded: self.loaded.deep_view(),
            stage: self.stage@,
        }
    }
}

/// A load in progress: the nested loads (the outermost first), the result of
/// the load that ended last, and the keys to unload once the whole load ends.
pub struct LoadSession<H> {
    frames: Vec<LoadFrame<H>>,
    outcome: Option<Result<String, String>>,
    unload: Vec<String>,
}

/// `LoadSession` as plain values.
#[verifier::ext_equal]
pub struct SessionView<H> {
    pub frames: Seq<FrameView<H>>,
    pub outcome: Option<Result<Seq<char>, Seq<char>>>,
    pub unload: Seq<Seq<char>>,
}

/// The characters of a textual result.
pub open spec fn result_text(r: Result<String, String>) -> Result<Seq<char>, Seq<char>> {
    match r {
        Ok(a) => Ok(a@),
        Err(e) => Err(e@),
    }
}

impl<H> View for LoadSession<H> {
    type V = SessionView<H>;

    closed spec fn view(&self) -> SessionView<H> {
        SessionView {
            frames: self.frames@.map_values(|f: LoadFrame<H>| f@),
            outcome: match self.outcome {
                Some(r) => Some(result_text(r)),
                None => None,
            },
            unload: self.unload.deep_view(),
        }
    }
}

/// What the caller reports back.
pub enum LoadEvent<H> {
    /// The canonical key of the requested path, or why there is none.
    Resolved(Result<String, String>),
    /// What the library opened at the requested key declares, or why it
    /// could not be opened.
    Opened(Result<OpenedLibrary<H>, String>),
    /// Nothing: the load only has to go on.
    Proceed,
}

/// A library that was opened: what its getters reported, and the handle
/// that keeps it loaded.
pub struct OpenedLibrary<H> {
    pub name: String,
    pub version: String,
    pub deps: Vec<String>,
    pub handle: H,
}

/// `LoadEvent` as plain values.
pub enum EventView<H> {
    Resolved(Result<Seq<char>, Seq<char>>),
    Opened(Result<(Seq<char>, Seq<char>, Seq<Seq<char>>, H), Seq<char>>),
    Proceed,
}

impl<H> View for LoadEvent<H> {
    type V = EventView<H>;

    open spec fn view(&self) -> EventView<H> {
        match self {
            LoadEvent::Resolved(r) => EventView::Resolved(result_text(*r)),
            LoadEvent::Opened(Ok(o)) => EventView::Opened(Ok((o.name@, o.version@, o.deps.deep_view(), o.handle))),
            LoadEvent::Opened(Err(e)) => EventView::Opened(Err(e@)),
            LoadEvent::Proceed => EventView::Proceed,
        }
    }
}

/// What the caller is to do next.
#[derive(Debug, PartialEq, Eq)]
pub enum LoadAction {
    /// Find the canonical key of this path and report `Resolved`.
    Resolve(String),
    /// Open the library at this key and report `Opened`.
    Open(String),
    /// Report `Proceed`.
    Proceed,
    /// The load ended with `result`; unload `unload`, in this order.
    Finished { result: Result<String, String>, unload: Vec<String> },
}

/// `LoadAction` as plain values.
pub enum ActionView {
    Resolve(Seq<char>),
    Open(Seq<char>),
    Proceed,
    Finished(Result<Seq<char>, Seq<char>>, Seq<Seq<char>>),
}

impl View for LoadAction {
    type V = ActionView;

    open spec fn view(&self) -> ActionView {
        match self {
            LoadAction::Resolve(p) => ActionView::Resolve(p@),
            LoadAction::Open(k) => ActionView::Open(k@),
            LoadAction::Proceed => ActionView::Proceed,
            LoadAction::Finished { result, unload } => ActionView::Finished(result_text(*result), unload.deep_view()),
        }
    }
}

/// Error when a library dependency's path cannot be resolved.
pub open spec fn unresolved_dependency_message(path: Seq<char>, err: Seq<char>) -> Seq<char> {
    "failed to canonicalize dependency '"@ + path + "' : "@ + err
}

/// A load that has just begun for `path`.
pub open spec fn fresh_frame<H>(path: Seq<char>) -> FrameView<H> {
    FrameView {
        path,
        key: Seq::empty(),
        meta: MetaView { name: Seq::empty(), version: Seq::empty(), deps: Seq::empty() },
        handle: None,
        next_dep: 0,
        loaded: Seq::empty(),
        stage: StageView::Resolve,
    }
}

/// A session that loads the plugin at `path`.
pub open spec fn initial_session<H>(path: Seq<char>) -> SessionView<H> {
    SessionView { frames: seq![fresh_frame(path)], outcome: None, unload: Seq::empty() }
}

/// The innermost load is now `f`.
pub open spec fn with_top<H>(s: SessionView<H>, f: FrameView<H>) -> SessionView<H> {
    SessionView { frames: s.frames.drop_last().push(f), outcome: s.outcome, unload: s.unload }
}

/// The innermost load ends with `message`; when `rollback` holds, the
/// dependencies it caused to be loaded are to be unloaded, most recent first.
pub open spec fn fail_top<H>(s: SessionView<H>, message: Seq<char>, rollback: bool) -> SessionView<H> {
    SessionView {
        frames: s.frames.drop_last(),
        outcome: Some(Err(message)),
        unload: if rollback {
            s.unload + s.frames.last().loaded.reverse()
        } else {
            s.unload
        },
    }
}

/// The innermost load ends with `result`.
pub open spec fn complete_top<H>(s: SessionView<H>, result: Result<Seq<char>, Seq<char>>) -> SessionView<H> {
    SessionView { frames: s.frames.drop_last(), outcome: Some(result), unload: s.unload }
}

/// The innermost load checks the dependency registered under `key` against
/// `req`: on success it moves on to its next dependency, otherwise it fails.
pub open spec fn after_dependency_check<H>(
    reg: RegistryView<H>,
    s: SessionView<H>,
    key: Seq<char>,
    req: Option<Seq<char>>,
) -> SessionView<H> {
    let top = s.frames.last();
    match dependency_check(reg, key, req) {
        Ok(()) => with_top(s, FrameView { next_dep: top.next_dep + 1, stage: StageView::Dependencies, ..top }),
        Err((message, rollback)) => fail_top(s, message, rollback),
    }
}

/// One step of a load: the registry and the session after `ev` is reported.
/// An event that the session is not waiting for changes nothing.
pub open spec fn load_transition<H>(
    reg: RegistryView<H>,
    s: SessionView<H>,
    ev: EventView<H>,
) -> (RegistryView<H>, SessionView<H>) {
    if s.frames.len() == 0 {
        (reg, s)
    } else {
        let top = s.frames.last();
        match s.outcome {
            Some(child) => match top.stage {
                StageView::AwaitDependency(k, q) => if ev is Proceed {
                    let s0 = SessionView { frames: s.frames, outcome: None, unload: s.unload };
                    match child {
                        Ok(_) => (reg, after_dependency_check(reg, with_top(s0, FrameView { loaded: top.loaded.push(k), ..top }), k, q)),
                        Err(e) => (reg, fail_top(s0, e, true)),
                    }
                } else {
                    (reg, s)
                },
                _ => (reg, s),
            },
            None => match top.stage {
                StageView::Resolve => match ev {
                    EventView::Resolved(Err(e)) => (reg, fail_top(s, e, false)),
                    EventView::Resolved(Ok(k)) => if registry_contains(reg, k) {
                        (reg, complete_top(s, Ok(registry_lookup(reg, k)->0.meta().name)))
                    } else {
                        (reg, with_top(s, FrameView { key: k, stage: StageView::Open, ..top }))
                    },
                    _ => (reg, s),
                },
                StageView::Open => match ev {
                    EventView::Opened(Err(e)) => (reg, fail_top(s, e, false)),
                    EventView::Opened(Ok((n, v, d, h))) => match library_meta(n, v, d) {
                        Err(m) => (reg, fail_top(s, m, false)),
                        Ok(meta) => (reg, with_top(s, FrameView {
                            meta,
                            handle: Some(h),
                            next_dep: 0,
                            stage: StageView::Dependencies,
                            ..top
                        })),
                    },
                    _ => (reg, s),
                },
                StageView::Dependencies => if ev is Proceed {
                    if top.next_dep >= top.meta.deps.len() {
                        (
                            registry_insert(reg, top.key, EntryView::Dynamic(top.meta, top.handle->0)),
                            complete_top(s, Ok(top.meta.name)),
                        )
                    } else {
                        let (p, q) = split_dependency(top.meta.deps[top.next_dep as int]);
                        if is_host_reference(p) {
                            (reg, after_dependency_check(reg, s, host_key(p), q))
                        } else {
                            (reg, with_top(s, FrameView { stage: StageView::ResolveDependency(p, q), ..top }))
                        }
                    }
                } else {
                    (reg, s)
                },
                StageView::ResolveDependency(p, q) => match ev {
                    EventView::Resolved(Err(e)) => (reg, fail_top(s, unresolved_dependency_message(p, e), true)),
                    EventView::Resolved(Ok(dk)) => if registry_contains(reg, dk) {
                        (reg, after_dependency_check(reg, s, dk, q))
                    } else {
                        let waiting = with_top(s, FrameView { stage: StageView::AwaitDependency(dk, q), ..top });
                        (reg, SessionView { frames: waiting.frames.push(fresh_frame(dk)), outcome: None, unload: s.unload })
                    },
                    _ => (reg, s),
                },
                StageView::AwaitDependency(_, _) => (reg, s),
            },
        }
    }
}

/// What the session needs next.
pub open spec fn pending_action<H>(s: SessionView<H>) -> ActionView {
    if s.frames.len() == 0 {
        ActionView::Finished(s.outcome->0, s.unload)
    } else {
        match s.frames.last().stage {
            StageView::Resolve => ActionView::Resolve(s.frames.last().path),
            StageView::Open => ActionView::Open(s.frames.last().key),
            StageView::ResolveDependency(p, _) => ActionView::Resolve(p),
            _ => ActionView::Proceed,
        }
    }
}

/// The fields that a load at its stage has filled in: once resolved, a key
/// other than the loader's own; once the library is open, its handle and its
/// (non-empty) name and version.
pub open spec fn frame_wf<H>(f: FrameView<H>) -> bool {
    &&& !(f.stage is Resolve) ==> f.key != host_loader_key()
    &&& (f.stage is Resolve || f.stage is Open) ==> f.loaded.len() == 0
    &&& match f.stage {
        StageView::Resolve => true,
        StageView::Open => true,
        StageView::Dependencies => f.handle is Some && f.next_dep <= f.meta.deps.len()
            && f.meta.name.len() > 0 && f.meta.version.len() > 0,
        StageView::ResolveDependency(p, q) => f.handle is Some && f.next_dep < f.meta.deps.len()
            && f.meta.name.len() > 0 && f.meta.version.len() > 0
            && split_dependency(f.meta.deps[f.next_dep as int]) == (p, q) && !is_host_reference(p),
        StageView::AwaitDependency(_, q) => f.handle is Some && f.next_dep < f.meta.deps.len()
            && f.meta.name.len() > 0 && f.meta.version.len() > 0
            && split_dependency(f.meta.deps[f.next_dep as int]).1 == q,
    }
}

/// Only the innermost load is at work; every other one waits for the load
/// nested in it; a result is pending exactly when the innermost load waits
/// (or when nothing is left, at the end).
pub open spec fn session_wf<H>(s: SessionView<H>) -> bool {
    &&& s.frames.len() == 0 ==> s.outcome is Some
    &&& s.frames.len() > 0 ==> (s.outcome is Some <==> s.frames.last().stage is AwaitDependency)
    &&& forall|i: int| 0 <= i < s.frames.len() - 1 ==> #[trigger] s.frames[i].stage is AwaitDependency
    &&& forall|i: int| 0 <= i < s.frames.len() ==> frame_wf(#[trigger] s.frames[i])
}

/// The session `rest` with `f` as its innermost load.
pub open spec fn restack<H>(rest: SessionView<H>, f: FrameView<H>) -> SessionView<H> {
    SessionView { frames: rest.frames.push(f), outcome: rest.outcome, unload: rest.unload }
}

/// Borrows the text of an optional string.
fn optional_str(o: &Option<String>) -> (r: Option<&str>)
    ensures
        option_text(r) == o.deep_view(),
{
    match o {
        Some(q) => Some(q.as_str()),
        None => None,
    }
}

/// Copies a list of strings.
fn copy_strings(v: &Vec<String>) -> (r: Vec<String>)
    ensures
        r.deep_view() == v.deep_view(),
{
    let mut out: Vec<String> = Vec::new();
    let n = v.len();
    let mut i: usize = 0;
    while i < n
        invariant
            n == v@.len(),
            i <= n,
            out@.len() == i,
            forall|j: int| 0 <= j < i ==> #[trigger] out@[j]@ == v@[j]@,
        decreases n - i,
    {
        out.push(v[i].clone());
        i = i + 1;
    }
    assert(out.deep_view() =~= v.deep_view());
    out
}

/// Copies a textual result.
fn copy_result(r: &Result<String, String>) -> (c: Result<String, String>)
    ensures
        result_text(c) == result_text(*r),
{
    match r {
        Ok(a) => Ok(a.clone()),
        Err(e) => Err(e.clone()),
    }
}

impl<H> LoadFrame<H> {
    /// A load that has just begun for `path`.
    fn fresh(path: String) -> (r: Self)
        ensures
            r@ == fresh_frame::<H>(path@),
    {
        let r = LoadFrame {
            path,
            key: String::new(),
            meta: PluginMeta::new(String::new(), String::new(), Vec::new()),
            handle: None,
            next_dep: 0,
            loaded: Vec::new(),
            stage: LoadStage::Resolve,
        };
        proof {
            assert(r.meta.deps.deep_view() =~= Seq::<Seq<char>>::empty());
            assert(r.loaded.deep_view() =~= Seq::<Seq<char>>::empty());
        }
        r
    }
}

impl<H> LoadSession<H> {
    /// The session is well formed.
    pub open spec fn wf(&self) -> bool {
        session_wf(self@)
    }

    /// A session that loads the plugin at `path`.
    pub fn new(path: &str) -> (r: Self)
        ensures
            r@ == initial_session::<H>(path@),
            r.wf(),
    {
        let mut frames: Vec<LoadFrame<H>> = Vec::new();
        frames.push(LoadFrame::fresh(String::from_str(path)));
        let r = LoadSession { frames, outcome: None, unload: Vec::new() };
        proof {
            assert(r@.frames =~= seq![fresh_frame::<H>(path@)]);
            assert(r.unload.deep_view() =~= Seq::<Seq<char>>::empty());
        }
        r
    }

    /// What the session needs next.
    pub fn next_action(&self) -> (r: LoadAction)
        requires
            self.wf(),
        ensures
            r@ == pending_action(self@),
    {
        let n = self.frames.len();
        if n == 0 {
            let result = match &self.outcome {
                Some(res) => copy_result(res),
                None => Err(String::new()),
            };
            return LoadAction::Finished { result, unload: copy_strings(&self.unload) };
        }
        let top = &self.frames[n - 1];
        proof {
            assert(self@.frames.last() == top@);
        }
        match &top.stage {
            LoadStage::Resolve => LoadAction::Resolve(top.path.clone()),
            LoadStage::Open => LoadAction::Open(top.key.clone()),
            LoadStage::ResolveDependency { path, .. } => LoadAction::Resolve(path.clone()),
            _ => LoadAction::Proceed,
        }
    }

    /// Puts `frame` back as the innermost load.
    fn push_frame(&mut self, frame: LoadFrame<H>)
        ensures
            final(self)@ == restack(old(self)@, frame@),
    {
        let ghost f = frame@;
        self.frames.push(frame);
        proof {
            assert(self@.frames =~= old(self)@.frames.push(f));
        }
    }

    /// The load `frame`, already taken off the session, ends with `message`;
    /// with `rollback`, the dependencies it loaded are queued for unloading,
    /// most recent first.
    fn fail(&mut self, frame: LoadFrame<H>, message: String, rollback: bool)
        ensures
            final(self)@ == fail_top(restack(old(self)@, frame@), message@, rollback),
    {
        let ghost f = frame@;
        if rollback {
            let loaded = &frame.loaded;
            let n = loaded.len();
            let mut i: usize = n;
            while i > 0
                invariant
                    n == loaded@.len(),
                    i <= n,
                    self.unload.deep_view() == old(self)@.unload + loaded.deep_view().subrange(i as int, n as int).reverse(),
                    self.frames == old(self).frames,
                decreases i,
            {
                let ghost before = self.unload.deep_view();
                self.unload.push(loaded[i - 1].clone());
                proof {
                    let d = loaded.deep_view();
                    assert(d.subrange(i - 1, n as int).reverse() =~= d.subrange(i as int, n as int).reverse().push(d[i - 1]));
                    assert(self.unload.deep_view() =~= before.push(d[i - 1]));
                }
                i = i - 1;
            }
            proof {
                assert(loaded.deep_view().subrange(0, n as int) =~= loaded.deep_view());
            }
        }
        self.outcome = Some(Err(message));
        proof {
            assert(restack(old(self)@, f).frames.drop_last() =~= old(self)@.frames);
            assert(restack(old(self)@, f).frames.last() == f);
        }
    }
}

/// Copies an optional string.
fn copy_optional(o: &Option<String>) -> (r: Option<String>)
    ensures
        r.deep_view() == o.deep_view(),
{
    match o {
        Some(q) => Some(q.clone()),
        None => None,
    }
}

/// Whether the session is waiting for `ev`; any other event is ignored.
pub open spec fn awaits<H>(s: SessionView<H>, ev: EventView<H>) -> bool {
    s.frames.len() > 0 && match s.frames.last().stage {
        StageView::Resolve => ev is Resolved,
        StageView::Open => ev is Opened,
        StageView::Dependencies => ev is Proceed,
        StageView::ResolveDependency(_, _) => ev is Resolved,
        StageView::AwaitDependency(_, _) => ev is Proceed,
    }
}

impl<H> LoadSession<H> {
    /// Whether the session is waiting for `event`.
    fn awaits_event(&self, event: &LoadEvent<H>) -> (r: bool)
        ensures
            r == awaits(self@, event@),
    {
        let n = self.frames.len();
        if n == 0 {
            return false;
        }
        let top = &self.frames[n - 1];
        proof {
            assert(self@.frames.last() == top@);
        }
        match (&top.stage, event) {
            (LoadStage::Resolve, LoadEvent::Resolved(_)) => true,
            (LoadStage::Open, LoadEvent::Opened(_)) => true,
            (LoadStage::Dependencies, LoadEvent::Proceed) => true,
            (LoadStage::ResolveDependency { .. }, LoadEvent::Resolved(_)) => true,
            (LoadStage::AwaitDependency { .. }, LoadEvent::Proceed) => true,
            _ => false,
        }
    }
}

impl<H> PluginManager<H> {
    /// The innermost load (taken off the session as `frame`) checks the
    /// dependency registered under `key` against `req`, then moves on or fails.
    fn continue_after_check(&self, session: &mut LoadSession<H>, frame: LoadFrame<H>, key: &str, req: Option<String>)
        requires
            self.wf(),
            frame@.next_dep < frame@.meta.deps.len(),
        ensures
            final(session)@ == after_dependency_check(self@, restack(old(session)@, frame@), key@, req.deep_view()),
    {
        let ghost f = frame@;
        let ghost s = restack(old(session)@, f);
        proof {
            assert(s.frames.last() == f);
            assert(s.frames.drop_last() =~= old(session)@.frames);
        }
        match self.check_dependency(key, optional_str(&req)) {
            Ok(()) => {
                let count = frame.meta.deps.len();
                proof {
                    assert(frame.meta.deps.deep_view().len() == count);
                }
                let LoadFrame { path, key: k, meta, handle, next_dep, loaded, stage } = frame;
                session.push_frame(LoadFrame {
                    path,
                    key: k,
                    meta,
                    handle,
                    next_dep: next_dep + 1,
                    loaded,
                    stage: LoadStage::Dependencies,
                });
            },
            Err(failure) => {
                session.fail(frame, failure.message, failure.rollback);
            },
        }
    }

    /// Takes one step of the load held by `session`, according to `event`,
    /// and says what the session needs next. An event the session is not
    /// waiting for changes nothing.
    pub fn load_plugin(&mut self, session: &mut LoadSession<H>, event: LoadEvent<H>) -> (r: LoadAction)
        requires
            old(self).wf(),
            old(session).wf(),
        ensures
            final(self).wf(),
            final(session).wf(),
            (final(self)@, final(session)@) == load_transition(old(self)@, old(session)@, event@),
            r@ == pending_action(final(session)@),
    {
        proof {
            lemma_load_transition_wf(self@, session@, event@);
        }
        if session.awaits_event(&event) {
            self.advance(session, event);
        }
        session.next_action()
    }

    /// One step of the load, for an event the session waits for.
    fn advance(&mut self, session: &mut LoadSession<H>, event: LoadEvent<H>)
        requires
            old(self).wf(),
            old(session).wf(),
            awaits(old(session)@, event@),
        ensures
            final(self).wf(),
            (final(self)@, final(session)@) == load_transition(old(self)@, old(session)@, event@),
    {
        let ghost s0 = session@;
        let frame = match session.frames.pop() {
            Some(f) => f,
            None => {
                return;
            },
        };
        let outcome = session.outcome.take();
        proof {
            assert(s0.frames =~= session@.frames.push(frame@));
            assert(s0.frames.last() == frame@);
            assert(frame_wf(s0.frames[s0.frames.len() - 1]));
        }
        let ghost f = frame@;
        let LoadFrame { path, key, meta, handle, next_dep, loaded, stage } = frame;
        match stage {
            LoadStage::AwaitDependency { key: dk, req } => {
                let child = match outcome {
                    Some(c) => c,
                    None => {
                        proof {
                            assert(false);
                        }
                        return;
                    },
                };
                match child {
                    Ok(_) => {
                        let mut loaded = loaded;
                        let ghost dk_text = dk@;
                        loaded.push(dk.clone());
                        let check_req = copy_optional(&req);
                        let check_key = dk.clone();
                        let next = LoadFrame {
                            path,
                            key,
                            meta,
                            handle,
                            next_dep,
                            loaded,
                            stage: LoadStage::AwaitDependency { key: dk, req },
                        };
                        proof {
                            assert(next@.loaded =~= f.loaded.push(dk_text));
                            assert(next@ == FrameView { loaded: f.loaded.push(dk_text), ..f });
                            assert(restack(session@, next@).frames =~= with_top(
                                SessionView { frames: s0.frames, outcome: None, unload: s0.unload },
                                next@,
                            ).frames);
                            assert(restack(session@, next@) == with_top(
                                SessionView { frames: s0.frames, outcome: None, unload: s0.unload },
                                next@,
                            ));
                        }
                        self.continue_after_check(session, next, check_key.as_str(), check_req);
                    },
                    Err(e) => {
                        let back = LoadFrame {
                            path,
                            key,
                            meta,
                            handle,
                            next_dep,
                            loaded,
                            stage: LoadStage::AwaitDependency { key: dk, req },
                        };
                        proof {
                            assert(back@ == f);
                        }
                        session.fail(back, e, true);
                    },
                }
            },
            LoadStage::Resolve => {
                let resolved = match event {
                    LoadEvent::Resolved(r) => r,
                    _ => {
                        proof {
                            assert(false);
                        }
                        return;
                    },
                };
                match resolved {
                    Err(e) => {
                        let back = LoadFrame { path, key, meta, handle, next_dep, loaded, stage: LoadStage::Resolve };
                        proof {
                            assert(back@ == f);
                        }
                        session.fail(back, e, false);
                    },
                    Ok(k) => {
                        if let Some(entry) = self.get(k.as_str()) {
                            let name = entry.name().clone();
                            session.outcome = Some(Ok(name));
                            proof {
                                assert(session@.frames =~= s0.frames.drop_last());
                            }
                        } else {
                            let next = LoadFrame { path, key: k, meta, handle, next_dep, loaded, stage: LoadStage::Open };
                            session.push_frame(next);
                            proof {
                                assert(session@.frames =~= with_top(s0, next@).frames);
                            }
                        }
                    },
                }
            },
            LoadStage::Open => {
                let opened = match event {
                    LoadEvent::Opened(r) => r,
                    _ => {
                        proof {
                            assert(false);
                        }
                        return;
                    },
                };
                match opened {
                    Err(e) => {
                        let back = LoadFrame { path, key, meta, handle, next_dep, loaded, stage: LoadStage::Open };
                        proof {
                            assert(back@ == f);
                        }
                        session.fail(back, e, false);
                    },
                    Ok(lib) => {
                        let OpenedLibrary { name, version, deps, handle: h } = lib;
                        match PluginMeta::from_library(name, version, deps) {
                            Err(m) => {
                                let back = LoadFrame { path, key, meta, handle, next_dep, loaded, stage: LoadStage::Open };
                                proof {
                                    assert(back@ == f);
                                }
                                session.fail(back, m, false);
                            },
                            Ok(new_meta) => {
                                let next = LoadFrame {
                                    path,
                                    key,
                                    meta: new_meta,
                                    handle: Some(h),
                                    next_dep: 0,
                                    loaded,
                                    stage: LoadStage::Dependencies,
                                };
                                session.push_frame(next);
                                proof {
                                    assert(session@.frames =~= with_top(s0, next@).frames);
                                }
                            },
                        }
                    },
                }
            },
            LoadStage::Dependencies => {
                if next_dep >= meta.deps.len() {
                    let h = match handle {
                        Some(h) => h,
                        None => {
                            proof {
                                assert(false);
                            }
                            return;
                        },
                    };
                    let name = meta.name.clone();
                    let _replaced = self.insert(key, PluginEntry::Dynamic { meta, handle: h });
                    session.outcome = Some(Ok(name));
                    proof {
                        assert(session@.frames =~= s0.frames.drop_last());
                    }
                } else {
                    let (p, q) = parse_dependency(meta.deps[next_dep].as_str());
                    proof {
                        assert(meta.deps.deep_view()[next_dep as int] == meta.deps@[next_dep as int]@);
                    }
                    match host_key_of(p.as_str()) {
                        Some(hk) => {
                            let back = LoadFrame { path, key, meta, handle, next_dep, loaded, stage: LoadStage::Dependencies };
                            proof {
                                assert(back@ == f);
                            }
                            self.continue_after_check(session, back, hk.as_str(), q);
                        },
                        None => {
                            let next = LoadFrame {
                                path,
                                key,
                                meta,
                                handle,
                                next_dep,
                                loaded,
                                stage: LoadStage::ResolveDependency { path: p, req: q },
                            };
                            session.push_frame(next);
                            proof {
                                assert(session@.frames =~= with_top(s0, next@).frames);
                            }
                        },
                    }
                }
            },
            LoadStage::ResolveDependency { path: p, req: q } => {
                let resolved = match event {
                    LoadEvent::Resolved(r) => r,
                    _ => {
                        proof {
                            assert(false);
                        }
                        return;
                    },
                };
                match resolved {
                    Err(e) => {
                        let mut message = join_str("failed to canonicalize dependency '", p.as_str());
                        message.append("' : ");
                        message.append(e.as_str());
                        let back = LoadFrame {
                            path,
                            key,
                            meta,
                            handle,
                            next_dep,
                            loaded,
                            stage: LoadStage::ResolveDependency { path: p, req: q },
                        };
                        proof {
                            assert(back@ == f);
                        }
                        session.fail(back, message, true);
                    },
                    Ok(dk) => {
                        if self.contains_key(dk.as_str()) {
                            let check_req = copy_optional(&q);
                            let back = LoadFrame {
                                path,
                                key,
                                meta,
                                handle,
                                next_dep,
                                loaded,
                                stage: LoadStage::ResolveDependency { path: p, req: q },
                            };
                            proof {
                                assert(back@ == f);
                            }
                            self.continue_after_check(session, back, dk.as_str(), check_req);
                        } else {
                            let child_path = dk.clone();
                            let waiting = LoadFrame {
                                path,
                                key,
                                meta,
                                handle,
                                next_dep,
                                loaded,
                                stage: LoadStage::AwaitDependency { key: dk, req: q },
                            };
                            session.push_frame(waiting);
                            session.push_frame(LoadFrame::fresh(child_path));
                        }
                    },
                }
            },
        }
    }
}

/// An event the session is not waiting for changes neither the registry nor
/// the session.
pub proof fn lemma_unexpected_event_ignored<H>(reg: RegistryView<H>, s: SessionView<H>, ev: EventView<H>)
    requires
        session_wf(s),
        !awaits(s, ev),
    ensures
        load_transition(reg, s, ev) == (reg, s),
{
}

/// A step never unregisters anything, and the only key whose entry may change
/// is the key of the innermost load, which a completing load registers.
pub proof fn lemma_registry_only_grows<H>(reg: RegistryView<H>, s: SessionView<H>, ev: EventView<H>)
    requires
        registry_wf(reg),
        session_wf(s),
    ensures
        forall|k: Seq<char>| #[trigger] registry_contains(reg, k) ==> registry_contains(load_transition(reg, s, ev).0, k),
        s.frames.len() > 0 ==> forall|k: Seq<char>| k != s.frames.last().key ==>
            #[trigger] registry_lookup(load_transition(reg, s, ev).0, k) == registry_lookup(reg, k),
{
    if s.frames.len() > 0 && s.outcome is None {
        let top = s.frames.last();
        if top.stage is Dependencies && ev is Proceed && top.next_dep >= top.meta.deps.len() {
            crate::manager::lemma_registry_insert(reg, top.key, EntryView::Dynamic(top.meta, top.handle->0));
        }
    }
}

/// When a step ends a load that had resolved its key successfully, the
/// plugin of that load is registered under its key, as the library it opened,
/// and the result is the plugin's name. (A load whose key resolves to a
/// registered one ends at once: see `lemma_registered_key_reused`.)
pub proof fn lemma_success_registers<H>(reg: RegistryView<H>, s: SessionView<H>, ev: EventView<H>)
    requires
        registry_wf(reg),
        session_wf(s),
        !(s.frames.last().stage is Resolve),
        load_transition(reg, s, ev).1.frames.len() < s.frames.len(),
        load_transition(reg, s, ev).1.outcome matches Some(Ok(_)),
    ensures
        ({
            let top = s.frames.last();
            &&& registry_lookup(load_transition(reg, s, ev).0, top.key) == Some(EntryView::Dynamic(top.meta, top.handle->0))
            &&& load_transition(reg, s, ev).1.outcome == Some(Ok::<Seq<char>, Seq<char>>(top.meta.name))
            &&& top.meta.name.len() > 0
            &&& top.meta.version.len() > 0
        }),
{
    let top = s.frames.last();
    assert(frame_wf(s.frames[s.frames.len() - 1]));
    match s.outcome {
        Some(child) => {
            if let StageView::AwaitDependency(k, q) = top.stage {
                if ev is Proceed {
                    match child {
                        Ok(_) => {
                            let s0 = SessionView { frames: s.frames, outcome: None, unload: s.unload };
                            let s1 = with_top(s0, FrameView { loaded: top.loaded.push(k), ..top });
                            assert(s1.frames.len() == s.frames.len());
                        },
                        Err(_) => {},
                    }
                }
            }
        },
        None => {
            if top.stage is Dependencies && ev is Proceed && top.next_dep >= top.meta.deps.len() {
                crate::manager::lemma_registry_insert(reg, top.key, EntryView::Dynamic(top.meta, top.handle->0));
            }
        },
    }
}

/// Loading a plugin whose key is registered already ends with the name of
/// the registered entry: no library is opened, the registry stays as it was,
/// and nothing is queued for unloading.
pub proof fn lemma_registered_key_reused<H>(reg: RegistryView<H>, s: SessionView<H>, key: Seq<char>)
    requires
        session_wf(s),
        s.frames.len() > 0,
        s.frames.last().stage is Resolve,
        registry_contains(reg, key),
    ensures
        ({
            let t = load_transition(reg, s, EventView::Resolved(Ok(key)));
            &&& t.0 == reg
            &&& t.1.outcome == Some(Ok::<Seq<char>, Seq<char>>(registry_lookup(reg, key)->0.meta().name))
            &&& t.1.frames == s.frames.drop_last()
            &&& t.1.unload == s.unload
            &&& !(pending_action(t.1) is Open)
        }),
{
    let t = load_transition(reg, s, EventView::Resolved(Ok(key)));
    if t.1.frames.len() > 0 {
        assert(t.1.frames.last() == s.frames[s.frames.len() - 2]);
    }
}

/// Keys queued for unloading stay queued: a step only appends to the queue,
/// and what it appends are dependencies that the failing load itself loaded,
/// most recent first.
pub proof fn lemma_unload_queue_grows<H>(reg: RegistryView<H>, s: SessionView<H>, ev: EventView<H>)
    requires
        session_wf(s),
    ensures
        ({
            let after = load_transition(reg, s, ev).1.unload;
            &&& s.unload.len() <= after.len()
            &&& after.subrange(0, s.unload.len() as int) == s.unload
            &&& s.frames.len() > 0 ==> (after == s.unload || after == s.unload + s.frames.last().loaded.reverse()
                || exists|k: Seq<char>| after == s.unload + s.frames.last().loaded.push(k).reverse())
        }),
{
    let after = load_transition(reg, s, ev).1.unload;
    if s.frames.len() > 0 {
        let top = s.frames.last();
        if let Some(child) = s.outcome {
            if let StageView::AwaitDependency(k, q) = top.stage {
                if ev is Proceed && child is Ok {
                    assert(after == s.unload || after == s.unload + top.loaded.push(k).reverse());
                }
            }
        }
    }
    assert(after.subrange(0, s.unload.len() as int) =~= s.unload);
}

/// The registry and the session after the events `evs`, one step each.
pub open spec fn run_load<H>(reg: RegistryView<H>, s: SessionView<H>, evs: Seq<EventView<H>>) -> (RegistryView<H>, SessionView<H>)
    decreases evs.len(),
{
    if evs.len() == 0 {
        (reg, s)
    } else {
        let before = run_load(reg, s, evs.drop_last());
        load_transition(before.0, before.1, evs.last())
    }
}

/// The key that the path of the load resolved to, once the load has
/// received it.
pub open spec fn load_key<H>(r: RegistryView<H>, path: Seq<char>, evs: Seq<EventView<H>>) -> Option<Seq<char>>
    decreases evs.len(),
{
    if evs.len() == 0 {
        None
    } else {
        let prev = evs.drop_last();
        match load_key(r, path, prev) {
            Some(k) => Some(k),
            None => {
                let before = run_load(r, initial_session(path), prev);
                if before.1.frames.len() == 1 && before.1.frames[0].stage is Resolve {
                    match evs.last() {
                        EventView::Resolved(Ok(k)) => Some(k),
                        _ => None,
                    }
                } else {
                    None
                }
            },
        }
    }
}

/// The declared dependency `dep`, taken under the registry key `key`, passes
/// its check against `r`: a host reference is taken under its host key.
pub open spec fn dependency_passes<H>(r: RegistryView<H>, dep: Seq<char>, key: Seq<char>) -> bool {
    let (p, q) = split_dependency(dep);
    &&& is_host_reference(p) ==> key == host_key(p)
    &&& dependency_check(r, key, q) == Ok::<(), (Seq<char>, bool)>(())
}

/// The first `n` declared dependencies, taken under the keys `keys`, each
/// pass their check against `r`.
pub open spec fn passing_keys<H>(r: RegistryView<H>, deps: Seq<Seq<char>>, n: nat, keys: Seq<Seq<char>>) -> bool {
    keys.len() == n && forall|j: int| 0 <= j < n ==> #[trigger] dependency_passes(r, deps[j], keys[j])
}

/// The first `n` declared dependencies each resolve to a key registered in
/// `r` whose entry passes the dependency's version requirement.
pub open spec fn dependencies_pass<H>(r: RegistryView<H>, deps: Seq<Seq<char>>, n: nat) -> bool {
    exists|keys: Seq<Seq<char>>| #[trigger] passing_keys(r, deps, n, keys)
}

/// Where a load that starts no nested load stands, against the registry `r`
/// it began with and the key its path resolved to: while it runs, the
/// registry is `r`, a resolved key is not registered in `r`, and the
/// dependencies walked so far passed their checks; once it has failed, the
/// registry is `r`; once it has succeeded with `name`, either the key was
/// registered in `r` under that name and the registry is `r`, or the registry
/// is `r` with the plugin's library added last under the key, named `name`,
/// every declared dependency having passed its check.
pub open spec fn single_load_state<H>(
    r: RegistryView<H>,
    key: Option<Seq<char>>,
    reg: RegistryView<H>,
    s: SessionView<H>,
) -> bool {
    &&& registry_wf(reg)
    &&& registry_has_host(reg)
    &&& session_wf(s)
    &&& s.frames.len() <= 1
    &&& s.frames.len() == 1 ==> {
        let f = s.frames[0];
        &&& reg == r
        &&& s.outcome is None
        &&& (f.stage is Resolve <==> key is None)
        &&& !(f.stage is Resolve) ==> key == Some(f.key) && !registry_contains(r, f.key)
        &&& (f.stage is Dependencies || f.stage is ResolveDependency) ==> dependencies_pass(r, f.meta.deps, f.next_dep)
    }
    &&& s.frames.len() == 0 ==> match s.outcome {
        Some(Ok(name)) => key is Some && {
            let k = key->0;
            ||| {
                &&& reg == r
                &&& registry_contains(r, k)
                &&& registry_lookup(r, k)->0.meta().name == name
            }
            ||| {
                &&& !registry_contains(r, k)
                &&& reg.len() == r.len() + 1
                &&& reg.drop_last() == r
                &&& reg.last().0 == k
                &&& reg.last().1 is Dynamic
                &&& reg.last().1.meta().name == name
                &&& dependencies_pass(r, reg.last().1.meta().deps, reg.last().1.meta().deps.len())
            }
        },
        _ => reg == r,
    }
}

/// Moving past one more dependency that passes keeps the walked ones passing.
proof fn lemma_dependencies_pass_step<H>(r: RegistryView<H>, deps: Seq<Seq<char>>, n: nat, key: Seq<char>)
    requires
        dependencies_pass(r, deps, n),
        dependency_passes(r, deps[n as int], key),
    ensures
        dependencies_pass(r, deps, n + 1),
{
    let keys = choose|keys: Seq<Seq<char>>| #[trigger] passing_keys(r, deps, n, keys);
    let more = keys.push(key);
    assert forall|j: int| 0 <= j < n + 1 implies #[trigger] dependency_passes(r, deps[j], more[j]) by {
        if j < n {
            assert(more[j] == keys[j]);
        }
    }
    assert(passing_keys(r, deps, n + 1, more));
}

proof fn lemma_single_load_step<H>(
    r: RegistryView<H>,
    path: Seq<char>,
    evs: Seq<EventView<H>>,
    reg: RegistryView<H>,
    s: SessionView<H>,
)
    requires
        evs.len() > 0,
        (reg, s) == run_load(r, initial_session(path), evs.drop_last()),
        single_load_state(r, load_key(r, path, evs.drop_last()), reg, s),
        load_transition(reg, s, evs.last()).1.frames.len() <= 1,
    ensures
        single_load_state(r, load_key(r, path, evs), load_transition(reg, s, evs.last()).0, load_transition(reg, s, evs.last()).1),
{
    let ev = evs.last();
    lemma_load_transition_wf(reg, s, ev);
    let t = load_transition(reg, s, ev);
    if s.frames.len() == 0 {
        return;
    }
    let top = s.frames.last();
    assert(top == s.frames[0]);
    if t.1.frames.len() == 1 {
        assert(t.1.frames[0] == t.1.frames.last());
    }
    match top.stage {
        StageView::Resolve => {
            assert(load_key(r, path, evs.drop_last()) is None);
            if let EventView::Resolved(Ok(k)) = ev {
                assert(load_key(r, path, evs) == Some(k));
            } else {
                assert(load_key(r, path, evs) is None);
            }
        },
        StageView::Dependencies => {
            if ev is Proceed {
                if top.next_dep >= top.meta.deps.len() {
                    let e = EntryView::Dynamic(top.meta, top.handle->0);
                    assert(t.0 == r.push((top.key, e)));
                    assert(t.0.drop_last() =~= r);
                    assert(top.next_dep == top.meta.deps.len());
                } else {
                    let (p, q) = split_dependency(top.meta.deps[top.next_dep as int]);
                    if is_host_reference(p) && dependency_check(reg, host_key(p), q) is Ok {
                        lemma_dependencies_pass_step(r, top.meta.deps, top.next_dep, host_key(p));
                    }
                }
            }
        },
        StageView::Open => {
            if let EventView::Opened(Ok((n, v, d, h))) = ev {
                assert(passing_keys(r, d, 0, Seq::<Seq<char>>::empty()));
            }
        },
        StageView::ResolveDependency(p, q) => {
            if let EventView::Resolved(Ok(dk)) = ev {
                if registry_contains(reg, dk) && dependency_check(reg, dk, q) is Ok {
                    assert(split_dependency(top.meta.deps[top.next_dep as int]) == (p, q));
                    lemma_dependencies_pass_step(r, top.meta.deps, top.next_dep, dk);
                }
            }
        },
        _ => {},
    }
    if !(top.stage is Resolve) {
        assert(load_key(r, path, evs) == load_key(r, path, evs.drop_last()));
    }
}

/// A whole load that starts no nested load (every library dependency of the
/// plugin resolves to a key registered already) changes the registry `r` at
/// most by adding the plugin under the key its path resolved to. When it
/// fails, the registry is `r`. When it succeeds, either that key was
/// registered already (the registry is `r` and the result is the registered
/// name), or the plugin's library is registered under the key, every declared
/// dependency resolved to a registered key that passed its version
/// requirement, the key is not the loader's own, and unregistering the key
/// gives back `r`.
pub proof fn lemma_load_without_nested_loads<H>(r: RegistryView<H>, path: Seq<char>, evs: Seq<EventView<H>>)
    requires
        registry_wf(r),
        registry_has_host(r),
        forall|i: int| 0 <= i <= evs.len() ==> (#[trigger] run_load(r, initial_session(path), evs.take(i))).1.frames.len() <= 1,
    ensures
        single_load_state(r, load_key(r, path, evs), run_load(r, initial_session(path), evs).0, run_load(r, initial_session(path), evs).1),
        ({
            let reg = run_load(r, initial_session(path), evs).0;
            let s = run_load(r, initial_session(path), evs).1;
            s.frames.len() == 0 && (s.outcome matches Some(Ok(_))) && reg != r ==> {
                let k = load_key(r, path, evs)->0;
                &&& k != host_loader_key()
                &&& registry_lookup(reg, k) == Some(reg.last().1)
                &&& registry_remove(reg, k) == r
            }
        }),
    decreases evs.len(),
{
    let init = initial_session::<H>(path);
    if evs.len() == 0 {
        assert(init.frames[0] == fresh_frame::<H>(path));
        assert(init.frames.last() == fresh_frame::<H>(path));
    } else {
        let prev = evs.drop_last();
        assert forall|i: int| 0 <= i <= prev.len() implies (#[trigger] run_load(r, init, prev.take(i))).1.frames.len() <= 1 by {
            assert(prev.take(i) =~= evs.take(i));
        }
        lemma_load_without_nested_loads(r, path, prev);
        assert(evs.take(evs.len() as int) =~= evs);
        let before = run_load(r, init, prev);
        lemma_single_load_step(r, path, evs, before.0, before.1);
    }
    let reg = run_load(r, init, evs).0;
    let s = run_load(r, init, evs).1;
    if s.frames.len() == 0 && (s.outcome matches Some(Ok(_))) && reg != r {
        let k = load_key(r, path, evs)->0;
        let e = reg.last().1;
        assert(reg =~= r.push((k, e)));
        crate::manager::lemma_insert_then_remove(r, k, e);
        crate::manager::lemma_registry_index_unique(reg, k, r.len() as int);
    }
}

/// A load keeps clear of the starting registry `r`: once resolved, its key
/// is not a key of `r`, nor is the dependency it waits for, nor any
/// dependency it caused to be loaded.
pub open spec fn frame_avoids<H>(r: RegistryView<H>, f: FrameView<H>) -> bool {
    &&& !(f.stage is Resolve) ==> !registry_contains(r, f.key)
    &&& (f.stage matches StageView::AwaitDependency(dk, _) ==> !registry_contains(r, dk))
    &&& forall|j: int| 0 <= j < f.loaded.len() ==> !registry_contains(r, #[trigger] f.loaded[j])
}

/// Against the starting registry `r`: every entry of `r` is still registered
/// as it was, every load in the session keeps clear of `r`, and no key queued
/// for unloading is a key of `r`.
pub open spec fn keeps_start<H>(r: RegistryView<H>, reg: RegistryView<H>, s: SessionView<H>) -> bool {
    &&& registry_wf(reg)
    &&& registry_has_host(reg)
    &&& session_wf(s)
    &&& forall|k: Seq<char>| #[trigger] registry_contains(r, k) ==> registry_lookup(reg, k) == registry_lookup(r, k)
    &&& forall|i: int| 0 <= i < s.frames.len() ==> frame_avoids(r, #[trigger] s.frames[i])
    &&& forall|j: int| 0 <= j < s.unload.len() ==> !registry_contains(r, #[trigger] s.unload[j])
}

proof fn lemma_avoids_with_top<H>(r: RegistryView<H>, s: SessionView<H>, f: FrameView<H>)
    requires
        s.frames.len() > 0,
        forall|i: int| 0 <= i < s.frames.len() ==> frame_avoids(r, #[trigger] s.frames[i]),
        frame_avoids(r, f),
    ensures
        forall|i: int| 0 <= i < with_top(s, f).frames.len() ==> frame_avoids(r, #[trigger] with_top(s, f).frames[i]),
{
    let t = with_top(s, f);
    assert forall|i: int| 0 <= i < t.frames.len() implies frame_avoids(r, #[trigger] t.frames[i]) by {
        if i < t.frames.len() - 1 {
            assert(t.frames[i] == s.frames[i]);
        }
    }
}

proof fn lemma_avoids_fail_top<H>(r: RegistryView<H>, s: SessionView<H>, message: Seq<char>, rollback: bool)
    requires
        s.frames.len() > 0,
        forall|i: int| 0 <= i < s.frames.len() ==> frame_avoids(r, #[trigger] s.frames[i]),
        forall|j: int| 0 <= j < s.unload.len() ==> !registry_contains(r, #[trigger] s.unload[j]),
    ensures
        forall|i: int| 0 <= i < fail_top(s, message, rollback).frames.len() ==> frame_avoids(r, #[trigger] fail_top(s, message, rollback).frames[i]),
        forall|j: int| 0 <= j < fail_top(s, message, rollback).unload.len() ==> !registry_contains(r, #[trigger] fail_top(s, message, rollback).unload[j]),
        forall|i: int| 0 <= i < complete_top(s, Ok(message)).frames.len() ==> frame_avoids(r, #[trigger] complete_top(s, Ok(message)).frames[i]),
{
    let t = fail_top(s, message, rollback);
    let top = s.frames.last();
    assert(frame_avoids(r, s.frames[s.frames.len() - 1]));
    assert forall|i: int| 0 <= i < t.frames.len() implies frame_avoids(r, #[trigger] t.frames[i]) by {
        assert(t.frames[i] == s.frames[i]);
    }
    assert forall|i: int| 0 <= i < complete_top(s, Ok(message)).frames.len() implies frame_avoids(r, #[trigger] complete_top(s, Ok(message)).frames[i]) by {
        assert(complete_top(s, Ok(message)).frames[i] == s.frames[i]);
    }
    assert forall|j: int| 0 <= j < t.unload.len() implies !registry_contains(r, #[trigger] t.unload[j]) by {
        if rollback && j >= s.unload.len() {
            let m = j - s.unload.len();
            assert(t.unload[j] == top.loaded.reverse()[m]);
            assert(top.loaded.reverse()[m] == top.loaded[top.loaded.len() - 1 - m]);
        }
    }
}

proof fn lemma_avoids_after_check<H>(r: RegistryView<H>, reg: RegistryView<H>, s: SessionView<H>, key: Seq<char>, req: Option<Seq<char>>)
    requires
        s.frames.len() > 0,
        forall|i: int| 0 <= i < s.frames.len() ==> frame_avoids(r, #[trigger] s.frames[i]),
        forall|j: int| 0 <= j < s.unload.len() ==> !registry_contains(r, #[trigger] s.unload[j]),
        !(s.frames.last().stage is Resolve),
    ensures
        ({
            let t = after_dependency_check(reg, s, key, req);
            &&& forall|i: int| 0 <= i < t.frames.len() ==> frame_avoids(r, #[trigger] t.frames[i])
            &&& forall|j: int| 0 <= j < t.unload.len() ==> !registry_contains(r, #[trigger] t.unload[j])
        }),
{
    let top = s.frames.last();
    assert(frame_avoids(r, s.frames[s.frames.len() - 1]));
    match dependency_check(reg, key, req) {
        Ok(()) => {
            lemma_avoids_with_top(r, s, FrameView { next_dep: top.next_dep + 1, stage: StageView::Dependencies, ..top });
        },
        Err((m, rb)) => {
            lemma_avoids_fail_top(r, s, m, rb);
        },
    }
}

/// One step keeps every entry of the starting registry, and keeps the
/// session clear of it.
pub proof fn lemma_keeps_start_step<H>(r: RegistryView<H>, reg: RegistryView<H>, s: SessionView<H>, ev: EventView<H>)
    requires
        keeps_start(r, reg, s),
    ensures
        keeps_start(r, load_transition(reg, s, ev).0, load_transition(reg, s, ev).1),
{
    lemma_load_transition_wf(reg, s, ev);
    if s.frames.len() == 0 {
        return;
    }
    let top = s.frames.last();
    assert(frame_avoids(r, s.frames[s.frames.len() - 1]));
    assert(frame_wf(s.frames[s.frames.len() - 1]));
    assert forall|k: Seq<char>| #[trigger] registry_contains(r, k) implies registry_contains(reg, k) by {
        assert(registry_lookup(reg, k) == registry_lookup(r, k));
    }
    match s.outcome {
        Some(child) => {
            if let StageView::AwaitDependency(k, q) = top.stage {
                if ev is Proceed {
                    let s0 = SessionView { frames: s.frames, outcome: None, unload: s.unload };
                    match child {
                        Ok(_) => {
                            let f = FrameView { loaded: top.loaded.push(k), ..top };
                            assert forall|j: int| 0 <= j < f.loaded.len() implies !registry_contains(r, #[trigger] f.loaded[j]) by {
                                if j < top.loaded.len() {
                                    assert(f.loaded[j] == top.loaded[j]);
                                }
                            }
                            lemma_avoids_with_top(r, s0, f);
                            let s1 = with_top(s0, f);
                            assert(s1.frames.last() == f);
                            lemma_avoids_after_check(r, reg, s1, k, q);
                        },
                        Err(e) => {
                            lemma_avoids_fail_top(r, s0, e, true);
                        },
                    }
                }
            }
        },
        None => {
            match top.stage {
                StageView::Resolve => match ev {
                    EventView::Resolved(Err(e)) => lemma_avoids_fail_top(r, s, e, false),
                    EventView::Resolved(Ok(k)) => {
                        if registry_contains(reg, k) {
                            lemma_avoids_fail_top(r, s, registry_lookup(reg, k)->0.meta().name, false);
                        } else {
                            lemma_avoids_with_top(r, s, FrameView { key: k, stage: StageView::Open, ..top });
                        }
                    },
                    _ => {},
                },
                StageView::Open => match ev {
                    EventView::Opened(Err(e)) => lemma_avoids_fail_top(r, s, e, false),
                    EventView::Opened(Ok((n, v, d, h))) => match library_meta(n, v, d) {
                        Err(m) => lemma_avoids_fail_top(r, s, m, false),
                        Ok(meta) => lemma_avoids_with_top(r, s, FrameView {
                            meta,
                            handle: Some(h),
                            next_dep: 0,
                            stage: StageView::Dependencies,
                            ..top
                        }),
                    },
                    _ => {},
                },
                StageView::Dependencies => {
                    if ev is Proceed {
                        if top.next_dep >= top.meta.deps.len() {
                            crate::manager::lemma_registry_insert(reg, top.key, EntryView::Dynamic(top.meta, top.handle->0));
                            lemma_avoids_fail_top(r, s, top.meta.name, false);
                        } else {
                            let (p, q) = split_dependency(top.meta.deps[top.next_dep as int]);
                            if is_host_reference(p) {
                                lemma_avoids_after_check(r, reg, s, host_key(p), q);
                            } else {
                                lemma_avoids_with_top(r, s, FrameView { stage: StageView::ResolveDependency(p, q), ..top });
                            }
                        }
                    }
                },
                StageView::ResolveDependency(p, q) => match ev {
                    EventView::Resolved(Err(e)) => lemma_avoids_fail_top(r, s, unresolved_dependency_message(p, e), true),
                    EventView::Resolved(Ok(dk)) => {
                        if registry_contains(reg, dk) {
                            lemma_avoids_after_check(r, reg, s, dk, q);
                        } else {
                            let f = FrameView { stage: StageView::AwaitDependency(dk, q), ..top };
                            lemma_avoids_with_top(r, s, f);
                            let waiting = with_top(s, f);
                            let t = waiting.frames.push(fresh_frame::<H>(dk));
                            assert forall|i: int| 0 <= i < t.len() implies frame_avoids(r, #[trigger] t[i]) by {
                                if i < t.len() - 1 {
                                    assert(t[i] == waiting.frames[i]);
                                }
                            }
                        }
                    },
                    _ => {},
                },
                StageView::AwaitDependency(_, _) => {},
            }
        },
    }
}

/// The registry once each of `keys` is unregistered, in order.
pub open spec fn registry_remove_all<H>(reg: RegistryView<H>, keys: Seq<Seq<char>>) -> RegistryView<H>
    decreases keys.len(),
{
    if keys.len() == 0 {
        reg
    } else {
        registry_remove(registry_remove_all(reg, keys.drop_last()), keys.last())
    }
}

proof fn lemma_remove_all_keeps<H>(r: RegistryView<H>, reg: RegistryView<H>, keys: Seq<Seq<char>>)
    requires
        registry_wf(reg),
        forall|k: Seq<char>| #[trigger] registry_contains(r, k) ==> registry_lookup(reg, k) == registry_lookup(r, k),
        forall|j: int| 0 <= j < keys.len() ==> !registry_contains(r, #[trigger] keys[j]),
    ensures
        registry_wf(registry_remove_all(reg, keys)),
        forall|k: Seq<char>| #[trigger] registry_contains(r, k) ==> registry_lookup(registry_remove_all(reg, keys), k) == registry_lookup(r, k),
    decreases keys.len(),
{
    if keys.len() > 0 {
        let prev = keys.drop_last();
        assert forall|j: int| 0 <= j < prev.len() implies !registry_contains(r, #[trigger] prev[j]) by {
            assert(prev[j] == keys[j]);
        }
        lemma_remove_all_keeps(r, reg, prev);
        let mid = registry_remove_all(reg, prev);
        crate::manager::lemma_registry_remove(mid, keys.last());
        assert(!registry_contains(r, keys[keys.len() - 1]));
    }
}

/// Whatever happens during a load, nested loads and failures included: every
/// entry of the starting registry `r` stays registered as it was (the
/// loader's own entry among them), and no key queued for unloading is a key
/// of `r`, so unloading the queued keys keeps every entry of `r`. (What stays
/// registered beyond `r` after a failure are the dependencies that nested
/// loads loaded for themselves, which the original does not unload either,
/// and, after a requirement that does not parse, the dependencies loaded
/// before it.)
pub proof fn lemma_load_keeps_starting_entries<H>(r: RegistryView<H>, path: Seq<char>, evs: Seq<EventView<H>>)
    requires
        registry_wf(r),
        registry_has_host(r),
    ensures
        keeps_start(r, run_load(r, initial_session(path), evs).0, run_load(r, initial_session(path), evs).1),
        ({
            let (reg, s) = run_load(r, initial_session(path), evs);
            forall|k: Seq<char>| #[trigger] registry_contains(r, k) ==>
                registry_lookup(registry_remove_all(reg, s.unload), k) == registry_lookup(r, k)
        }),
    decreases evs.len(),
{
    let init = initial_session::<H>(path);
    if evs.len() == 0 {
        assert(init.frames[0] == fresh_frame::<H>(path));
        assert(init.frames.last() == fresh_frame::<H>(path));
        assert(init.frames[0].loaded.len() == 0);
    } else {
        lemma_load_keeps_starting_entries(r, path, evs.drop_last());
        let before = run_load(r, init, evs.drop_last());
        lemma_keeps_start_step(r, before.0, before.1, evs.last());
    }
    let (reg, s) = run_load(r, init, evs);
    lemma_remove_all_keeps(r, reg, s.unload);
}

/// The requirement of the dependency the load is handling.
pub open spec fn current_requirement<H>(f: FrameView<H>) -> Option<Seq<char>> {
    split_dependency(f.meta.deps[f.next_dep as int]).1
}

/// When a step makes the innermost load fail, the dependencies that this
/// load caused to be loaded (counting one whose nested load has just
/// succeeded) are queued for unloading after what was queued before, most
/// recent first, unless the failure comes from a requirement that does not
/// parse; then they are queued or left as they are.
pub proof fn lemma_failure_queues_own_dependencies<H>(reg: RegistryView<H>, s: SessionView<H>, ev: EventView<H>)
    requires
        registry_wf(reg),
        session_wf(s),
        s.frames.len() > 0,
        load_transition(reg, s, ev).1.frames.len() < s.frames.len(),
        load_transition(reg, s, ev).1.outcome matches Some(Err(_)),
    ensures
        ({
            let top = s.frames.last();
            let own = match s.outcome {
                Some(Ok(_)) => match top.stage {
                    StageView::AwaitDependency(k, _) => top.loaded.push(k),
                    _ => top.loaded,
                },
                _ => top.loaded,
            };
            let after = load_transition(reg, s, ev).1.unload;
            &&& !(current_requirement(top) matches Some(q) && semver_req_parse_error(q) is Some)
                ==> after == s.unload + own.reverse()
            &&& after == s.unload || after == s.unload + own.reverse()
        }),
{
    let top = s.frames.last();
    assert(frame_wf(s.frames[s.frames.len() - 1]));
    let t = load_transition(reg, s, ev);
    if top.stage is Resolve || top.stage is Open {
        assert(top.loaded.reverse() =~= Seq::<Seq<char>>::empty());
        assert(s.unload + top.loaded.reverse() =~= s.unload);
    }
    match s.outcome {
        Some(child) => {
            if let StageView::AwaitDependency(k, q) = top.stage {
                if ev is Proceed {
                    if child is Ok {
                        let s0 = SessionView { frames: s.frames, outcome: None, unload: s.unload };
                        let f = FrameView { loaded: top.loaded.push(k), ..top };
                        let s1 = with_top(s0, f);
                        assert(s1.frames.last() == f);
                        crate::manager::lemma_dependency_check_cases(reg, k, q);
                    }
                }
            }
        },
        None => {
            match top.stage {
                StageView::Dependencies => {
                    if ev is Proceed && top.next_dep < top.meta.deps.len() {
                        let (p, q) = split_dependency(top.meta.deps[top.next_dep as int]);
                        crate::manager::lemma_dependency_check_cases(reg, host_key(p), q);
                    }
                },
                StageView::ResolveDependency(p, q) => {
                    if let EventView::Resolved(Ok(dk)) = ev {
                        crate::manager::lemma_dependency_check_cases(reg, dk, q);
                    }
                },
                _ => {},
            }
        },
    }
}

/// Walking to the next declared dependency: a host reference (`loader`, or
/// anything starting with `host:`) is checked at once under its host key
/// (`host:` put before `loader`), moving on when the check passes and failing
/// the load with the check's message when it does not; a library dependency
/// is first resolved. The registry does not change.
pub proof fn lemma_dependency_walk<H>(reg: RegistryView<H>, s: SessionView<H>)
    requires
        session_wf(s),
        s.frames.len() > 0,
        s.outcome is None,
        s.frames.last().stage is Dependencies,
        s.frames.last().next_dep < s.frames.last().meta.deps.len(),
    ensures
        ({
            let top = s.frames.last();
            let (p, q) = split_dependency(top.meta.deps[top.next_dep as int]);
            let t = load_transition(reg, s, EventView::Proceed);
            let host = p == "loader"@ || has_prefix(p, "host:"@);
            let key = if has_prefix(p, "host:"@) { p } else { "host:"@ + p };
            &&& t.0 == reg
            &&& host && dependency_check(reg, key, q) is Ok ==> {
                &&& t.1.frames.len() == s.frames.len()
                &&& t.1.frames.last() == FrameView { next_dep: top.next_dep + 1, ..top }
                &&& t.1.outcome is None
                &&& t.1.unload == s.unload
            }
            &&& host && dependency_check(reg, key, q) is Err ==> {
                &&& t.1.frames == s.frames.drop_last()
                &&& t.1.outcome == Some(Err::<Seq<char>, Seq<char>>(dependency_check(reg, key, q)->Err_0.0))
                &&& !(q matches Some(r) && semver_req_parse_error(r) is Some) ==> t.1.unload == s.unload + top.loaded.reverse()
            }
            &&& !host ==> {
                &&& t.1.frames == s.frames.drop_last().push(FrameView { stage: StageView::ResolveDependency(p, q), ..top })
                &&& t.1.outcome is None
                &&& t.1.unload == s.unload
                &&& pending_action(t.1) == ActionView::Resolve(p)
            }
        }),
{
    let top = s.frames.last();
    let (p, q) = split_dependency(top.meta.deps[top.next_dep as int]);
    crate::text::lemma_has_prefix_meaning(p, "host:"@);
    let t = load_transition(reg, s, EventView::Proceed);
    if is_host_reference(p) {
        let key = host_key(p);
        match dependency_check(reg, key, q) {
            Ok(()) => {
                assert(t.1.frames.last() == FrameView { next_dep: top.next_dep + 1, stage: StageView::Dependencies, ..top });
            },
            Err(_) => {},
        }
    } else {
        let f = FrameView { stage: StageView::ResolveDependency(p, q), ..top };
        assert(t.1.frames.last() == f);
    }
}

/// What resolving a library dependency `p` leads to: when it cannot be
/// resolved, the load fails with `failed to canonicalize dependency '<p>' :
/// <error>` and queues its own dependencies for unloading; when it resolves
/// to a registered key, that key is checked; when it resolves to an
/// unregistered key, a nested load of that key begins (the current load
/// waiting for it) and the next thing asked is to resolve that key. The
/// registry does not change.
pub proof fn lemma_dependency_resolution<H>(reg: RegistryView<H>, s: SessionView<H>, res: Result<Seq<char>, Seq<char>>)
    requires
        session_wf(s),
        s.frames.len() > 0,
        s.outcome is None,
        s.frames.last().stage is ResolveDependency,
    ensures
        ({
            let top = s.frames.last();
            let p = split_dependency(top.meta.deps[top.next_dep as int]).0;
            let q = split_dependency(top.meta.deps[top.next_dep as int]).1;
            let t = load_transition(reg, s, EventView::Resolved(res));
            &&& t.0 == reg
            &&& match res {
                Err(e) => {
                    &&& t.1.frames == s.frames.drop_last()
                    &&& t.1.outcome == Some(Err::<Seq<char>, Seq<char>>("failed to canonicalize dependency '"@ + p + "' : "@ + e))
                    &&& t.1.unload == s.unload + top.loaded.reverse()
                },
                Ok(dk) => if !registry_contains(reg, dk) {
                    &&& t.1.frames.len() == s.frames.len() + 1
                    &&& t.1.frames[s.frames.len() - 1] == FrameView { stage: StageView::AwaitDependency(dk, q), ..top }
                    &&& t.1.frames.last().path == dk
                    &&& t.1.frames.last().stage is Resolve
                    &&& t.1.frames.last().loaded.len() == 0
                    &&& t.1.outcome is None
                    &&& t.1.unload == s.unload
                    &&& pending_action(t.1) == ActionView::Resolve(dk)
                } else if dependency_check(reg, dk, q) is Ok {
                    &&& t.1.frames.len() == s.frames.len()
                    &&& t.1.frames.last() == FrameView { next_dep: top.next_dep + 1, stage: StageView::Dependencies, ..top }
                    &&& t.1.outcome is None
                    &&& t.1.unload == s.unload
                } else {
                    &&& t.1.frames == s.frames.drop_last()
                    &&& t.1.outcome == Some(Err::<Seq<char>, Seq<char>>(dependency_check(reg, dk, q)->Err_0.0))
                    &&& !(q matches Some(r) && semver_req_parse_error(r) is Some) ==> t.1.unload == s.unload + top.loaded.reverse()
                },
            }
        }),
{
    let top = s.frames.last();
    assert(frame_wf(s.frames[s.frames.len() - 1]));
    let t = load_transition(reg, s, EventView::Resolved(res));
    if let Ok(dk) = res {
        if registry_contains(reg, dk) {
            if let StageView::ResolveDependency(p, q) = top.stage {
                if dependency_check(reg, dk, q) is Ok {
                    assert(t.1.frames.last() == FrameView { next_dep: top.next_dep + 1, stage: StageView::Dependencies, ..top });
                }
            }
        } else {
            assert(t.1.frames[s.frames.len() - 1] == with_top(s, FrameView { stage: StageView::AwaitDependency(dk, split_dependency(top.meta.deps[top.next_dep as int]).1), ..top }).frames.last());
        }
    }
}

/// What opening the library leads to: when it cannot be opened, or reports
/// an empty name or version, the load fails with the error, `plugin did not
/// provide a name` or `plugin did not provide a version`; otherwise the load
/// keeps exactly what the library reported and its handle, and starts with
/// its first dependency. The registry does not change.
pub proof fn lemma_library_opened<H>(reg: RegistryView<H>, s: SessionView<H>, res: Result<(Seq<char>, Seq<char>, Seq<Seq<char>>, H), Seq<char>>)
    requires
        session_wf(s),
        s.frames.len() > 0,
        s.outcome is None,
        s.frames.last().stage is Open,
    ensures
        ({
            let top = s.frames.last();
            let t = load_transition(reg, s, EventView::Opened(res));
            &&& t.0 == reg
            &&& match res {
                Err(e) => t.1.frames == s.frames.drop_last() && t.1.outcome == Some(Err::<Seq<char>, Seq<char>>(e)),
                Ok((n, v, d, h)) => if n.len() == 0 {
                    t.1.frames == s.frames.drop_last()
                        && t.1.outcome == Some(Err::<Seq<char>, Seq<char>>("plugin did not provide a name"@))
                } else if v.len() == 0 {
                    t.1.frames == s.frames.drop_last()
                        && t.1.outcome == Some(Err::<Seq<char>, Seq<char>>("plugin did not provide a version"@))
                } else {
                    &&& t.1.frames.len() == s.frames.len()
                    &&& t.1.frames.last() == FrameView {
                        meta: MetaView { name: n, version: v, deps: d },
                        handle: Some(h),
                        next_dep: 0,
                        stage: StageView::Dependencies,
                        ..top
                    }
                    &&& t.1.outcome is None
                },
            }
        }),
{
    let t = load_transition(reg, s, EventView::Opened(res));
    if let Ok((n, v, d, h)) = res {
        crate::plugin::lemma_library_meta_accepts(n, v, d);
        if n.len() > 0 && v.len() > 0 {
            let top = s.frames.last();
            assert(t.1.frames.last() == FrameView {
                meta: MetaView { name: n, version: v, deps: d },
                handle: Some(h),
                next_dep: 0,
                stage: StageView::Dependencies,
                ..top
            });
        }
    }
}

/// Every load but the innermost waits for a nested load, and each load has
/// filled in what its stage needs.
pub open spec fn frames_wf<H>(s: SessionView<H>) -> bool {
    &&& forall|i: int| 0 <= i < s.frames.len() - 1 ==> #[trigger] s.frames[i].stage is AwaitDependency
    &&& forall|i: int| 0 <= i < s.frames.len() ==> frame_wf(#[trigger] s.frames[i])
}

proof fn lemma_fail_top_wf<H>(s: SessionView<H>, message: Seq<char>, rollback: bool)
    requires
        frames_wf(s),
        s.frames.len() > 0,
    ensures
        session_wf(fail_top(s, message, rollback)),
        session_wf(complete_top(s, Ok(message))),
{
    let t = fail_top(s, message, rollback);
    if t.frames.len() > 0 {
        assert(t.frames.last() == s.frames[s.frames.len() - 2]);
    }
    assert forall|i: int| 0 <= i < t.frames.len() implies frame_wf(#[trigger] t.frames[i]) by {
        assert(t.frames[i] == s.frames[i]);
    }
    assert forall|i: int| 0 <= i < t.frames.len() - 1 implies #[trigger] t.frames[i].stage is AwaitDependency by {
        assert(t.frames[i] == s.frames[i]);
    }
}

proof fn lemma_with_top_wf<H>(s: SessionView<H>, f: FrameView<H>)
    requires
        frames_wf(s),
        s.frames.len() > 0,
        frame_wf(f),
    ensures
        (s.outcome is Some <==> f.stage is AwaitDependency) ==> session_wf(with_top(s, f)),
        frames_wf(with_top(s, f)),
{
    let t = with_top(s, f);
    assert(t.frames.last() == f);
    assert forall|i: int| 0 <= i < t.frames.len() implies frame_wf(#[trigger] t.frames[i]) by {
        if i < t.frames.len() - 1 {
            assert(t.frames[i] == s.frames[i]);
        }
    }
    assert forall|i: int| 0 <= i < t.frames.len() - 1 implies #[trigger] t.frames[i].stage is AwaitDependency by {
        assert(t.frames[i] == s.frames[i]);
    }
}

proof fn lemma_after_check_wf<H>(reg: RegistryView<H>, s: SessionView<H>, key: Seq<char>, req: Option<Seq<char>>)
    requires
        frames_wf(s),
        s.frames.len() > 0,
        s.outcome is None,
        s.frames.last().handle is Some,
        s.frames.last().next_dep < s.frames.last().meta.deps.len(),
        s.frames.last().meta.name.len() > 0,
        s.frames.last().meta.version.len() > 0,
        s.frames.last().key != host_loader_key(),
    ensures
        session_wf(after_dependency_check(reg, s, key, req)),
{
    let top = s.frames.last();
    match dependency_check(reg, key, req) {
        Ok(()) => {
            lemma_with_top_wf(s, FrameView { next_dep: top.next_dep + 1, stage: StageView::Dependencies, ..top });
        },
        Err((m, rb)) => {
            lemma_fail_top_wf(s, m, rb);
        },
    }
}

/// Every step keeps keys unique in the registry, keeps the loader's own
/// entry, and keeps the session well formed.
pub proof fn lemma_load_transition_wf<H>(reg: RegistryView<H>, s: SessionView<H>, ev: EventView<H>)
    requires
        registry_wf(reg),
        registry_has_host(reg),
        session_wf(s),
    ensures
        registry_wf(load_transition(reg, s, ev).0),
        registry_has_host(load_transition(reg, s, ev).0),
        session_wf(load_transition(reg, s, ev).1),
{
    if s.frames.len() == 0 {
        return;
    }
    let top = s.frames.last();
    assert(frame_wf(s.frames[s.frames.len() - 1]));
    assert(frames_wf(s));
    match s.outcome {
        Some(child) => {
            if let StageView::AwaitDependency(k, q) = top.stage {
                if ev is Proceed {
                    let s0 = SessionView { frames: s.frames, outcome: None, unload: s.unload };
                    assert(frames_wf(s0));
                    match child {
                        Ok(_) => {
                            let f = FrameView { loaded: top.loaded.push(k), ..top };
                            lemma_with_top_wf(s0, f);
                            let s1 = with_top(s0, f);
                            assert(s1.frames.last() == f);
                            lemma_after_check_wf(reg, s1, k, q);
                        },
                        Err(e) => {
                            lemma_fail_top_wf(s0, e, true);
                        },
                    }
                }
            }
        },
        None => {
            match top.stage {
                StageView::Resolve => match ev {
                    EventView::Resolved(Err(e)) => lemma_fail_top_wf(s, e, false),
                    EventView::Resolved(Ok(k)) => {
                        if registry_contains(reg, k) {
                            lemma_fail_top_wf(s, registry_lookup(reg, k)->0.meta().name, false);
                        } else {
                            lemma_with_top_wf(s, FrameView { key: k, stage: StageView::Open, ..top });
                        }
                    },
                    _ => {},
                },
                StageView::Open => match ev {
                    EventView::Opened(Err(e)) => lemma_fail_top_wf(s, e, false),
                    EventView::Opened(Ok((n, v, d, h))) => match library_meta(n, v, d) {
                        Err(m) => lemma_fail_top_wf(s, m, false),
                        Ok(meta) => lemma_with_top_wf(s, FrameView {
                            meta,
                            handle: Some(h),
                            next_dep: 0,
                            stage: StageView::Dependencies,
                            ..top
                        }),
                    },
                    _ => {},
                },
                StageView::Dependencies => {
                    if ev is Proceed {
                        if top.next_dep >= top.meta.deps.len() {
                            crate::manager::lemma_registry_insert(reg, top.key, EntryView::Dynamic(top.meta, top.handle->0));
                            lemma_fail_top_wf(s, top.meta.name, false);
                        } else {
                            let (p, q) = split_dependency(top.meta.deps[top.next_dep as int]);
                            if is_host_reference(p) {
                                lemma_after_check_wf(reg, s, host_key(p), q);
                            } else {
                                lemma_with_top_wf(s, FrameView { stage: StageView::ResolveDependency(p, q), ..top });
                            }
                        }
                    }
                },
                StageView::ResolveDependency(p, q) => match ev {
                    EventView::Resolved(Err(e)) => lemma_fail_top_wf(s, unresolved_dependency_message(p, e), true),
                    EventView::Resolved(Ok(dk)) => {
                        if registry_contains(reg, dk) {
                            lemma_after_check_wf(reg, s, dk, q);
                        } else {
                            let s1 = SessionView { frames: s.frames, outcome: Some(Ok(dk)), unload: s.unload };
                            let f = FrameView { stage: StageView::AwaitDependency(dk, q), ..top };
                            lemma_with_top_wf(s1, f);
                            let waiting = with_top(s, f);
                            let t = SessionView { frames: waiting.frames.push(fresh_frame::<H>(dk)), outcome: None, unload: s.unload };
                            assert(t.frames.last() == fresh_frame::<H>(dk));
                            assert forall|i: int| 0 <= i < t.frames.len() implies frame_wf(#[trigger] t.frames[i]) by {
                                if i < t.frames.len() - 1 {
                                    assert(t.frames[i] == with_top(s1, f).frames[i]);
                                }
                            }
                            assert forall|i: int| 0 <= i < t.frames.len() - 1 implies #[trigger] t.frames[i].stage is AwaitDependency by {
                                assert(t.frames[i] == with_top(s1, f).frames[i]);
                                if i < t.frames.len() - 2 {
                                } else {
                                    assert(t.frames[i] == f);
                                }
                            }
                        }
                    },
                    _ => {},
                },
                StageView::AwaitDependency(_, _) => {},
            }
        },
    }
}

} // verus!
