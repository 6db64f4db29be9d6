use vstd::prelude::*;

use crate::abi::{FunctionInfo, FunctionView, ModuleInfo, ModuleView, strings_view};
use crate::abi::TypeTag;
use crate::dispatch::DispatchTable;
use crate::invoke::{call_outcome, outcome_of, resolve_call, InvokeError};
use crate::model::{
    lookup, modules_view, published, swapped, tracks, withdrawn,
};

verus! {

/// Why loading, linking or reloading a module failed.
#[derive(Debug)]
pub enum RuntimeError {
    /// A module with this canonical path is already tracked.
    AlreadyLoaded(String),
    /// No valid module could be read at this path.
    LoadFailed(String),
    /// The module at this path depends, directly or not, on itself.
    CircularDependency(String),
    /// The module at the first path imports the second path, which has no entry.
    LinkFailed(String, String),
}

/// A file-system event, as delivered by a directory watcher.
#[derive(Debug)]
pub enum FileEvent {
    Write(String),
    Create(String),
    Rename(String, String),
    Remove(String),
    Chmod(String),
    Rescan,
}

/// The path a file event asks to reload, if any: writes, creations and the
/// destination of a rename.
pub open spec fn event_target(e: FileEvent) -> Option<Seq<char>> {
    match e {
        FileEvent::Write(p) => Some(p@),
        FileEvent::Create(p) => Some(p@),
        FileEvent::Rename(_, p) => Some(p@),
        _ => None,
    }
}

/// Looks `path` up among the modules of `store`, first match first.
pub fn find_module(store: &Vec<ModuleInfo>, path: &String) -> (r: Option<usize>)
    ensures
        match r {
            Some(i) => i < store@.len() && store@[i as int]@.path == path@
                && lookup(modules_view(store@), path@) == Some(store@[i as int]@),
            None => lookup(modules_view(store@), path@) is None,
        },
{
    let ghost s = modules_view(store@);
    let mut i: usize = 0;
    assert(s.subrange(0, s.len() as int) =~= s);
    while i < store.len()
        invariant
            i <= store@.len(),
            s == modules_view(store@),
            lookup(s, path@) == lookup(s.subrange(i as int, s.len() as int), path@),
        decreases store@.len() - i,
    {
        let ghost rest = s.subrange(i as int, s.len() as int);
        assert(rest[0] == store@[i as int]@);
        if store[i].path == *path {
            return Some(i);
        }
        assert(rest.drop_first() =~= s.subrange(i + 1, s.len() as int));
        i = i + 1;
    }
    assert(s.subrange(i as int, s.len() as int).len() == 0);
    None
}

} // verus!

verus! {

/// One loaded module, identified by the canonical path in its metadata.
#[derive(Debug)]
pub struct Assembly {
    pub info: ModuleInfo,
}

/// The mathematical state of a [`Runtime`]: the tracked modules in load order,
/// the dispatch table, and for each pending file event the path it would reload.
pub struct RuntimeView {
    pub modules: Seq<ModuleView>,
    pub table: Map<Seq<char>, FunctionView>,
    pub events: Seq<Option<Seq<char>>>,
}

/// Views of a list of assemblies.
pub open spec fn assemblies_view(v: Seq<Assembly>) -> Seq<ModuleView> {
    v.map_values(|a: Assembly| a.info@)
}

/// Views of a queue of file events.
pub open spec fn events_view(v: Seq<FileEvent>) -> Seq<Option<Seq<char>>> {
    v.map_values(|e: FileEvent| event_target(e))
}

/// Whether a pending event names a tracked module that `store` can reload.
pub open spec fn swappable(
    modules: Seq<ModuleView>,
    store: Seq<ModuleView>,
    e: Option<Seq<char>>,
) -> bool {
    match e {
        Some(p) => tracks(modules, p) && lookup(store, p) is Some,
        None => false,
    }
}

/// The position of the first pending event whose reload succeeds.
pub open spec fn first_swap(
    modules: Seq<ModuleView>,
    store: Seq<ModuleView>,
    events: Seq<Option<Seq<char>>>,
) -> Option<int>
    decreases events.len(),
{
    if events.len() == 0 {
        None
    } else if swappable(modules, store, events[0]) {
        Some(0)
    } else {
        match first_swap(modules, store, events.drop_first()) {
            Some(k) => Some(k + 1),
            None => None,
        }
    }
}

/// The first successful reload, if any, is at a position of the queue.
pub proof fn lemma_first_swap_range(
    modules: Seq<ModuleView>,
    store: Seq<ModuleView>,
    events: Seq<Option<Seq<char>>>,
)
    ensures
        match first_swap(modules, store, events) {
            Some(k) => 0 <= k < events.len() && swappable(modules, store, events[k]),
            None => true,
        },
    decreases events.len(),
{
    if events.len() > 0 && !swappable(modules, store, events[0]) {
        lemma_first_swap_range(modules, store, events.drop_first());
    }
}

/// The position of the tracked module with path `p`.
pub open spec fn module_index(modules: Seq<ModuleView>, p: Seq<char>) -> int {
    choose|i: int| 0 <= i < modules.len() && modules[i].path == p
}

/// Whether module paths are pairwise distinct.
pub open spec fn paths_unique(modules: Seq<ModuleView>) -> bool {
    forall|i: int, j: int| 0 <= i < j < modules.len() ==> modules[i].path != modules[j].path
}

/// The state after reloading the tracked module at path `p` from `store`.
pub open spec fn reloaded(v: RuntimeView, store: Seq<ModuleView>, p: Seq<char>) -> RuntimeView {
    let i = module_index(v.modules, p);
    let m = lookup(store, p).unwrap();
    RuntimeView {
        modules: v.modules.update(i, m),
        table: swapped(v.table, v.modules[i].functions, m.functions),
        events: v.events,
    }
}

/// Loads modules, keeps the dispatch table that their functions are published
/// in, and reloads them as file events arrive.
pub struct Runtime {
    assemblies: Vec<Assembly>,
    dispatch_table: DispatchTable,
    events: Vec<FileEvent>,
}

impl View for Runtime {
    type V = RuntimeView;

    closed spec fn view(&self) -> RuntimeView {
        RuntimeView {
            modules: assemblies_view(self.assemblies@),
            table: self.dispatch_table@,
            events: events_view(self.events@),
        }
    }
}

impl Runtime {
    /// The runtime's invariant: a well-formed table and one module per path.
    pub closed spec fn wf(&self) -> bool {
        self.dispatch_table.wf() && paths_unique(self@.modules)
    }

    /// A runtime that tracks nothing yet.
    pub fn empty() -> (r: Runtime)
        ensures
            r.wf(),
            r@.modules.len() == 0,
            r@.table == Map::<Seq<char>, FunctionView>::empty(),
            r@.events.len() == 0,
    {
        let r = Runtime { assemblies: Vec::new(), dispatch_table: DispatchTable::new(), events: Vec::new() };
        assert(r@.modules =~= Seq::<ModuleView>::empty());
        assert(r@.events =~= Seq::<Option<Seq<char>>>::empty());
        r
    }

    /// The position of the tracked module with path `path`.
    fn find_assembly(&self, path: &String) -> (r: Option<usize>)
        ensures
            match r {
                Some(i) => i < self@.modules.len() && self@.modules[i as int].path == path@,
                None => !tracks(self@.modules, path@),
            },
    {
        let mut i: usize = 0;
        while i < self.assemblies.len()
            invariant
                i <= self@.modules.len(),
                self@.modules.len() == self.assemblies@.len(),
                forall|j: int| 0 <= j < i ==> self@.modules[j].path != path@,
            decreases self.assemblies@.len() - i,
        {
            if self.assemblies[i].info.path == *path {
                return Some(i);
            }
            i = i + 1;
        }
        None
    }

    /// Whether a module with canonical path `path` is tracked.
    pub fn is_tracked(&self, path: &String) -> (r: bool)
        ensures
            r == tracks(self@.modules, path@),
    {
        match self.find_assembly(path) {
            Some(_) => true,
            None => false,
        }
    }

    /// The number of tracked modules.
    pub fn assembly_count(&self) -> (r: usize)
        ensures
            r == self@.modules.len(),
    {
        self.assemblies.len()
    }

    /// The tracked modules, in load order.
    pub fn assemblies(&self) -> (r: &Vec<Assembly>)
        ensures
            assemblies_view(r@) == self@.modules,
    {
        &self.assemblies
    }

    /// The dispatch table.
    pub fn dispatch_table(&self) -> (r: &DispatchTable)
        requires
            self.wf(),
        ensures
            r.wf(),
            r@ == self@.table,
    {
        &self.dispatch_table
    }

    /// The number of entries in the dispatch table.
    pub fn function_count(&self) -> (r: usize)
        requires
            self.wf(),
        ensures
            r == self@.table.len(),
    {
        self.dispatch_table.len()
    }

    /// Retrieves the descriptor that currently answers `function_name`, if any.
    pub fn get_function_info(&self, function_name: &String) -> (r: Option<&FunctionInfo>)
        requires
            self.wf(),
        ensures
            match r {
                Some(info) => self@.table.contains_key(function_name@) && info@
                    == self@.table[function_name@],
                None => !self@.table.contains_key(function_name@),
            },
    {
        self.dispatch_table.get(function_name)
    }

    /// Checks a call of the function at `path` with arguments of types `args`,
    /// expecting `ret`, against the current table; returns the address to call.
    pub fn resolve_call(&self, path: &String, args: &Vec<TypeTag>, ret: TypeTag) -> (r: Result<
        u64,
        InvokeError,
    >)
        requires
            self.wf(),
        ensures
            outcome_of(r) == call_outcome(self@.table, path@, args@, ret),
    {
        resolve_call(&self.dispatch_table, path, args, ret)
    }

    /// Queues a file event for the next [`Runtime::update`].
    pub fn push_event(&mut self, event: FileEvent)
        requires
            old(self).wf(),
        ensures
            final(self).wf(),
            final(self)@.modules == old(self)@.modules,
            final(self)@.table == old(self)@.table,
            final(self)@.events == old(self)@.events.push(event_target(event)),
    {
        let ghost e = event_target(event);
        self.events.push(event);
        assert(self@.events =~= old(self)@.events.push(e));
    }

    /// The number of queued file events.
    pub fn pending_events(&self) -> (r: usize)
        ensures
            r == self@.events.len(),
    {
        self.events.len()
    }
}


impl Runtime {
    /// Reloads the tracked module at position `i` from `store`, replacing its
    /// published functions. On failure nothing changes.
    fn swap(&mut self, i: usize, store: &Vec<ModuleInfo>) -> (r: Result<(), RuntimeError>)
        requires
            old(self).wf(),
            i < old(self)@.modules.len(),
        ensures
            final(self).wf(),
            final(self)@.events == old(self)@.events,
            r is Ok <==> lookup(modules_view(store@), old(self)@.modules[i as int].path) is Some,
            r is Err ==> final(self)@ == old(self)@,
            r is Ok ==> final(self)@ == reloaded(
                old(self)@,
                modules_view(store@),
                old(self)@.modules[i as int].path,
            ),
    {
        let j = match find_module(store, &self.assemblies[i].info.path) {
            Some(j) => j,
            None => {
                return Err(RuntimeError::LoadFailed(self.assemblies[i].info.path.clone()));
            },
        };
        let new_info = store[j].copy();
        let ghost t0 = self@.table;
        let ghost old_fns = self@.modules[i as int].functions;
        let ghost new_fns = new_info@.functions;
        let n_old = self.assemblies[i].info.functions.len();
        let mut k: usize = 0;
        assert(old_fns.subrange(0, 0) =~= Seq::<FunctionView>::empty());
        while k < n_old
            invariant
                self.dispatch_table.wf(),
                self.assemblies@ == old(self).assemblies@,
                self.events@ == old(self).events@,
                i < self.assemblies@.len(),
                n_old == old_fns.len(),
                old_fns == self.assemblies@[i as int].info@.functions,
                k <= n_old,
                self.dispatch_table@ == withdrawn(t0, old_fns.subrange(0, k as int)),
            decreases n_old - k,
        {
            let ghost before = self.dispatch_table@;
            self.dispatch_table.remove(&self.assemblies[i].info.functions[k].path);
            assert(old_fns.subrange(0, k + 1).drop_last() =~= old_fns.subrange(0, k as int));
            k = k + 1;
        }
        assert(old_fns.subrange(0, n_old as int) =~= old_fns);
        let ghost t1 = self.dispatch_table@;
        let mut k: usize = 0;
        assert(new_fns.subrange(0, 0) =~= Seq::<FunctionView>::empty());
        while k < new_info.functions.len()
            invariant
                self.dispatch_table.wf(),
                self.assemblies@ == old(self).assemblies@,
                self.events@ == old(self).events@,
                new_fns == new_info@.functions,
                k <= new_fns.len(),
                self.dispatch_table@ == published(t1, new_fns.subrange(0, k as int)),
            decreases new_fns.len() - k,
        {
            self.dispatch_table.insert(&new_info.functions[k].path, new_info.functions[k].copy());
            assert(new_fns.subrange(0, k + 1).drop_last() =~= new_fns.subrange(0, k as int));
            k = k + 1;
        }
        assert(new_fns.subrange(0, new_fns.len() as int) =~= new_fns);
        let ghost m = new_info@;
        self.assemblies.set(i, Assembly { info: new_info });
        assert(self@.modules =~= old(self)@.modules.update(i as int, m));
        assert(module_index(old(self)@.modules, m.path) == i) by {
            let w = module_index(old(self)@.modules, m.path);
            assert(0 <= w < old(self)@.modules.len() && old(self)@.modules[w].path == m.path);
        }
        assert(paths_unique(self@.modules)) by {
            assert forall|a: int, b: int|
                0 <= a < b < self@.modules.len() implies self@.modules[a].path
                != self@.modules[b].path by {
                assert(old(self)@.modules[a].path == self@.modules[a].path);
                assert(old(self)@.modules[b].path == self@.modules[b].path);
            }
        }
        Ok(())
    }

    /// Drains queued file events until one reloads a tracked module. Returns
    /// whether a reload happened; events after that one stay queued. Events
    /// whose module cannot be reloaded are consumed without effect.
    pub fn update(&mut self, store: &Vec<ModuleInfo>) -> (r: bool)
        requires
            old(self).wf(),
        ensures
            final(self).wf(),
            match first_swap(old(self)@.modules, modules_view(store@), old(self)@.events) {
                None => !r && final(self)@.modules == old(self)@.modules && final(self)@.table
                    == old(self)@.table && final(self)@.events.len() == 0,
                Some(k) => r && final(self)@ == reloaded(
                    RuntimeView {
                        modules: old(self)@.modules,
                        table: old(self)@.table,
                        events: old(self)@.events.subrange(k + 1, old(self)@.events.len() as int),
                    },
                    modules_view(store@),
                    old(self)@.events[k].unwrap(),
                ),
            },
    {
        let ghost s = modules_view(store@);
        let ghost ev0 = old(self)@.events;
        let ghost mods = old(self)@.modules;
        let ghost c: int = 0;
        assert(ev0.subrange(0, ev0.len() as int) =~= ev0);
        proof {
            lemma_first_swap_range(mods, s, ev0);
        }
        while self.events.len() > 0
            invariant
                self.wf(),
                s == modules_view(store@),
                ev0 == old(self)@.events,
                mods == old(self)@.modules,
                self@.modules == mods,
                self@.table == old(self)@.table,
                0 <= c <= ev0.len(),
                self@.events == ev0.subrange(c, ev0.len() as int),
                match first_swap(mods, s, ev0) {
                    None => first_swap(mods, s, self@.events) is None,
                    Some(k) => k >= c && first_swap(mods, s, self@.events) == Some(k - c),
                },
            decreases self@.events.len(),
        {
            let ghost cur = self@.events;
            let event = self.events.remove(0);
            proof {
                assert(self@.events =~= cur.drop_first());
                assert(cur.drop_first() =~= ev0.subrange(c + 1, ev0.len() as int));
                c = c + 1;
            }
            let target: Option<&String> = match &event {
                FileEvent::Write(p) => Some(p),
                FileEvent::Create(p) => Some(p),
                FileEvent::Rename(_, p) => Some(p),
                _ => None,
            };
            assert(cur[0] == event_target(event));
            match target {
                Some(p) => {
                    assert(cur[0] == Some(p@));
                    match self.find_assembly(p) {
                        Some(i) => {
                            let ghost pre = self@;
                            match self.swap(i, store) {
                                Ok(()) => {
                                    assert(mods[i as int].path == p@);
                                    assert(tracks(mods, p@));
                                    assert(swappable(mods, s, cur[0]));
                                    assert(first_swap(mods, s, cur) == Some(0int));
                                    assert(ev0[c - 1] == cur[0]);
                                    assert(pre == RuntimeView {
                                        modules: mods,
                                        table: old(self)@.table,
                                        events: ev0.subrange(c, ev0.len() as int),
                                    });
                                    assert(first_swap(mods, s, ev0) == Some(c - 1));
                                    return true;
                                },
                                Err(_) => {
                                    assert(mods[i as int].path == p@);
                                    assert(lookup(s, p@) is None);
                                    assert(!swappable(mods, s, cur[0]));
                                },
                            }
                        },
                        None => {},
                    }
                },
                None => {},
            }
            assert(!swappable(mods, s, cur[0]));
            assert(cur.len() > 0);
            assert(first_swap(mods, s, cur) == match first_swap(mods, s, cur.drop_first()) {
                Some(k) => Some(k + 1),
                None => None::<int>,
            });
            assert(self@.events == cur.drop_first());
            proof {
                lemma_first_swap_range(mods, s, cur.drop_first());
            }
        }
        false
    }
}


/// Every import of `m` has an entry in `t` once `m`'s own functions are published.
pub open spec fn imports_resolve(t: Map<Seq<char>, FunctionView>, m: ModuleView) -> bool {
    forall|x: int| 0 <= x < m.imports.len() ==> published(t, m.functions).contains_key(m.imports[x])
}

/// `p` names a module of `store` that depends on no other module.
pub open spec fn is_leaf(store: Seq<ModuleView>, p: Seq<char>) -> bool {
    lookup(store, p) is Some && lookup(store, p).unwrap().dependencies.len() == 0
}

/// A module loaded from `store` between `pre` and `post`: it is the store's
/// module for its path, was not tracked before, its dependencies are tracked,
/// and its functions and imports have entries.
pub open spec fn newly_loaded(
    pre: RuntimeView,
    post: RuntimeView,
    store: Seq<ModuleView>,
    m: ModuleView,
) -> bool {
    &&& lookup(store, m.path) == Some(m)
    &&& !tracks(pre.modules, m.path)
    &&& forall|j: int| 0 <= j < m.dependencies.len() ==> tracks(post.modules, m.dependencies[j])
    &&& forall|j: int| 0 <= j < m.functions.len() ==> post.table.contains_key(m.functions[j].path)
    &&& forall|j: int| 0 <= j < m.imports.len() ==> post.table.contains_key(m.imports[j])
}

/// `post` extends `pre` by modules loaded from `store`: earlier modules and
/// entries stay, the events are untouched, and every added module is newly loaded.
pub open spec fn loaded_from(pre: RuntimeView, post: RuntimeView, store: Seq<ModuleView>) -> bool {
    &&& post.events == pre.events
    &&& pre.modules.len() <= post.modules.len()
    &&& post.modules.subrange(0, pre.modules.len() as int) == pre.modules
    &&& forall|k: Seq<char>| pre.table.contains_key(k) ==> post.table.contains_key(k)
    &&& forall|i: int|
        pre.modules.len() <= i < post.modules.len() ==> #[trigger] newly_loaded(
            pre,
            post,
            store,
            post.modules[i],
        )
}

/// How many modules of `store` are not on the load stack.
pub open spec fn unvisited(store: Seq<ModuleView>, stack: Seq<Seq<char>>) -> nat
    decreases store.len(),
{
    if store.len() == 0 {
        0
    } else {
        (if stack.contains(store[0].path) {
            0nat
        } else {
            1nat
        }) + unvisited(store.drop_first(), stack)
    }
}

/// Why a load stopped, as plain values.
pub enum LoadFailure {
    AlreadyLoaded(Seq<char>),
    LoadFailed(Seq<char>),
    CircularDependency(Seq<char>),
    LinkFailed(Seq<char>, Seq<char>),
}

/// The mathematical value of a [`RuntimeError`].
pub open spec fn failure_of(e: RuntimeError) -> LoadFailure {
    match e {
        RuntimeError::AlreadyLoaded(p) => LoadFailure::AlreadyLoaded(p@),
        RuntimeError::LoadFailed(p) => LoadFailure::LoadFailed(p@),
        RuntimeError::CircularDependency(p) => LoadFailure::CircularDependency(p@),
        RuntimeError::LinkFailed(p, q) => LoadFailure::LinkFailed(p@, q@),
    }
}

/// The first of `imports`, from position `from` on, that has no entry in `t`.
pub open spec fn first_unresolved(
    t: Map<Seq<char>, FunctionView>,
    imports: Seq<Seq<char>>,
    from: int,
) -> Option<Seq<char>>
    decreases imports.len() - from,
{
    if from < 0 || from >= imports.len() {
        None
    } else if !t.contains_key(imports[from]) {
        Some(imports[from])
    } else {
        first_unresolved(t, imports, from + 1)
    }
}

/// Loading the module at `p` into the tracked `modules` and `table`, with
/// the paths in `stack` under way: refuse a tracked path, a path under way,
/// or one that `store` lacks; otherwise publish its functions, load its
/// dependencies in order, check its imports, and track it. The result is the
/// new modules and table, or the first failure.
pub open spec fn load_walk(
    modules: Seq<ModuleView>,
    table: Map<Seq<char>, FunctionView>,
    store: Seq<ModuleView>,
    stack: Seq<Seq<char>>,
    p: Seq<char>,
) -> Result<(Seq<ModuleView>, Map<Seq<char>, FunctionView>), LoadFailure>
    decreases unvisited(store, stack), 0int, 0int,
{
    if tracks(modules, p) {
        Err(LoadFailure::AlreadyLoaded(p))
    } else if stack.contains(p) {
        Err(LoadFailure::CircularDependency(p))
    } else if lookup(store, p) is None {
        Err(LoadFailure::LoadFailed(p))
    } else {
        let m = lookup(store, p).unwrap();
        proof {
            lemma_unvisited_push(store, stack, p);
        }
        match load_deps(
            modules,
            published(table, m.functions),
            store,
            stack.push(p),
            m.dependencies,
            0,
        ) {
            Err(e) => Err(e),
            Ok(st) => match first_unresolved(st.1, m.imports, 0) {
                Some(x) => Err(LoadFailure::LinkFailed(p, x)),
                None => Ok((st.0.push(m), st.1)),
            },
        }
    }
}

/// A load's result `r`, leaving the runtime at `v`, is what the walk `w` gives.
pub open spec fn walk_matches(
    r: Result<(), RuntimeError>,
    v: RuntimeView,
    w: Result<(Seq<ModuleView>, Map<Seq<char>, FunctionView>), LoadFailure>,
) -> bool {
    match (r, w) {
        (Ok(_), Ok(st)) => v.modules == st.0 && v.table == st.1,
        (Err(e), Err(f)) => failure_of(e) == f,
        _ => false,
    }
}

/// Loading `deps`, from position `i` on, one after the other with [`load_walk`].
pub open spec fn load_deps(
    modules: Seq<ModuleView>,
    table: Map<Seq<char>, FunctionView>,
    store: Seq<ModuleView>,
    stack: Seq<Seq<char>>,
    deps: Seq<Seq<char>>,
    i: int,
) -> Result<(Seq<ModuleView>, Map<Seq<char>, FunctionView>), LoadFailure>
    decreases unvisited(store, stack), 1int, deps.len() - i,
{
    if i < 0 || i >= deps.len() {
        Ok((modules, table))
    } else {
        match load_walk(modules, table, store, stack, deps[i]) {
            Err(e) => Err(e),
            Ok(st) => load_deps(st.0, st.1, store, stack, deps, i + 1),
        }
    }
}

/// Putting a path of `store` that is not yet under way on the stack lowers the count.
pub proof fn lemma_unvisited_push(store: Seq<ModuleView>, stack: Seq<Seq<char>>, p: Seq<char>)
    ensures
        unvisited(store, stack.push(p)) <= unvisited(store, stack),
        !stack.contains(p) && lookup(store, p) is Some ==> unvisited(store, stack.push(p))
            < unvisited(store, stack),
    decreases store.len(),
{
    if store.len() > 0 {
        lemma_unvisited_push(store.drop_first(), stack, p);
        if stack.contains(store[0].path) {
            let w = choose|w: int| 0 <= w < stack.len() && stack[w] == store[0].path;
            assert(stack.push(p)[w] == store[0].path);
        }
        if store[0].path == p {
            assert(stack.push(p)[stack.len() as int] == p);
        }
    }
}

proof fn lemma_tracks_prefix(a: Seq<ModuleView>, b: Seq<ModuleView>, p: Seq<char>)
    requires
        a.len() <= b.len(),
        b.subrange(0, a.len() as int) == a,
        tracks(a, p),
    ensures
        tracks(b, p),
{
    let i = choose|i: int| 0 <= i < a.len() && a[i].path == p;
    assert(b[i] == b.subrange(0, a.len() as int)[i]);
}

proof fn lemma_loaded_trans(
    a: RuntimeView,
    b: RuntimeView,
    c: RuntimeView,
    store: Seq<ModuleView>,
)
    requires
        loaded_from(a, b, store),
        loaded_from(b, c, store),
    ensures
        loaded_from(a, c, store),
{
    assert(c.modules.subrange(0, a.modules.len() as int) =~= a.modules) by {
        assert forall|i: int| 0 <= i < a.modules.len() implies c.modules[i] == a.modules[i] by {
            assert(c.modules[i] == c.modules.subrange(0, b.modules.len() as int)[i]);
            assert(b.modules[i] == b.modules.subrange(0, a.modules.len() as int)[i]);
        }
    }
    assert forall|i: int| a.modules.len() <= i < c.modules.len() implies #[trigger] newly_loaded(
        a,
        c,
        store,
        c.modules[i],
    ) by {
        let m = c.modules[i];
        if i < b.modules.len() {
            assert(c.modules[i] == c.modules.subrange(0, b.modules.len() as int)[i]);
            assert(newly_loaded(a, b, store, b.modules[i]));
            assert forall|j: int| 0 <= j < m.dependencies.len() implies tracks(
                c.modules,
                m.dependencies[j],
            ) by {
                lemma_tracks_prefix(b.modules, c.modules, m.dependencies[j]);
            }
        } else {
            assert(newly_loaded(b, c, store, m));
            if tracks(a.modules, m.path) {
                lemma_tracks_prefix(a.modules, b.modules, m.path);
            }
        }
    }
}

/// Whether `v` holds a string equal to `s`.
fn contains_string(v: &Vec<String>, s: &String) -> (r: bool)
    ensures
        r == strings_view(v@).contains(s@),
{
    let mut i: usize = 0;
    while i < v.len()
        invariant
            i <= v@.len(),
            forall|j: int| 0 <= j < i ==> v@[j]@ != s@,
        decreases v@.len() - i,
    {
        if v[i] == *s {
            assert(strings_view(v@)[i as int] == s@);
            return true;
        }
        i = i + 1;
    }
    assert forall|j: int| 0 <= j < strings_view(v@).len() implies strings_view(v@)[j] != s@ by {
        assert(strings_view(v@)[j] == v@[j]@);
    }
    false
}

impl Runtime {
    /// The position of the first import that has no entry in the table, if any.
    fn unresolved_import(&self, imports: &Vec<String>) -> (r: Option<usize>)
        requires
            self.wf(),
        ensures
            match r {
                Some(q) => q < imports@.len() && !self@.table.contains_key(imports@[q as int]@),
                None => forall|x: int|
                    0 <= x < imports@.len() ==> self@.table.contains_key(
                        #[trigger] strings_view(imports@)[x],
                    ),
            },
            match r {
                Some(q) => first_unresolved(self@.table, strings_view(imports@), 0) == Some(
                    imports@[q as int]@,
                ),
                None => first_unresolved(self@.table, strings_view(imports@), 0) is None,
            },
    {
        let ghost iv = strings_view(imports@);
        let mut q: usize = 0;
        while q < imports.len()
            invariant
                self.wf(),
                iv == strings_view(imports@),
                q <= imports@.len(),
                forall|x: int| 0 <= x < q ==> self@.table.contains_key(imports@[x]@),
                first_unresolved(self@.table, iv, 0) == first_unresolved(self@.table, iv, q as int),
            decreases imports@.len() - q,
        {
            assert(iv[q as int] == imports@[q as int]@);
            if !self.dispatch_table.contains(&imports[q]) {
                return Some(q);
            }
            q = q + 1;
        }
        assert forall|x: int| 0 <= x < imports@.len() implies self@.table.contains_key(
            #[trigger] strings_view(imports@)[x],
        ) by {
            assert(strings_view(imports@)[x] == imports@[x]@);
        }
        None
    }

    /// Loads the module at `path` and, depth first, every module it depends
    /// on, then links it. `stack` holds the paths whose loading is under way.
    fn add_rec(&mut self, path: &String, store: &Vec<ModuleInfo>, stack: &mut Vec<String>) -> (r:
        Result<(), RuntimeError>)
        requires
            old(self).wf(),
        ensures
            final(self).wf(),
            final(stack)@ == old(stack)@,
            final(self)@.events == old(self)@.events,
            old(self)@.modules.len() <= final(self)@.modules.len(),
            final(self)@.modules.subrange(0, old(self)@.modules.len() as int) == old(self)@.modules,
            tracks(old(self)@.modules, path@) ==> (match r {
                Err(RuntimeError::AlreadyLoaded(q)) => q@ == path@,
                _ => false,
            }),
            !tracks(old(self)@.modules, path@) && strings_view(old(stack)@).contains(path@) ==> (
            match r {
                Err(RuntimeError::CircularDependency(q)) => q@ == path@,
                _ => false,
            }),
            !tracks(old(self)@.modules, path@) && !strings_view(old(stack)@).contains(path@)
                && lookup(modules_view(store@), path@) is None ==> (match r {
                Err(RuntimeError::LoadFailed(q)) => q@ == path@,
                _ => false,
            }),
            !tracks(old(self)@.modules, path@) && !strings_view(old(stack)@).contains(path@)
                && is_leaf(modules_view(store@), path@) ==> (r is Ok <==> imports_resolve(
                old(self)@.table,
                lookup(modules_view(store@), path@).unwrap(),
            )),
            walk_matches(
                r,
                final(self)@,
                load_walk(
                    old(self)@.modules,
                    old(self)@.table,
                    modules_view(store@),
                    strings_view(old(stack)@),
                    path@,
                ),
            ),
            r is Ok ==> loaded_from(old(self)@, final(self)@, modules_view(store@)),
            r is Ok ==> tracks(final(self)@.modules, path@),
            r is Ok ==> forall|i: int|
                old(self)@.modules.len() <= i < final(self)@.modules.len()
                    ==> !strings_view(old(stack)@).contains(#[trigger] final(self)@.modules[i].path),
        decreases unvisited(modules_view(store@), strings_view(old(stack)@)),
    {
        let ghost s = modules_view(store@);
        let ghost pre = self@;
        if self.is_tracked(path) {
            return Err(RuntimeError::AlreadyLoaded(path.clone()));
        }
        if contains_string(stack, path) {
            return Err(RuntimeError::CircularDependency(path.clone()));
        }
        let j = match find_module(store, path) {
            Some(j) => j,
            None => {
                return Err(RuntimeError::LoadFailed(path.clone()));
            },
        };
        let info = store[j].copy();
        let ghost m = info@;
        let ghost fns = m.functions;
        let mut k: usize = 0;
        assert(fns.subrange(0, 0) =~= Seq::<FunctionView>::empty());
        while k < info.functions.len()
            invariant
                self.wf(),
                self.assemblies@ == old(self).assemblies@,
                self.events@ == old(self).events@,
                pre == old(self)@,
                fns == info@.functions,
                k <= fns.len(),
                self.dispatch_table@ == published(pre.table, fns.subrange(0, k as int)),
            decreases fns.len() - k,
        {
            self.dispatch_table.insert(&info.functions[k].path, info.functions[k].copy());
            assert(fns.subrange(0, k + 1).drop_last() =~= fns.subrange(0, k as int));
            k = k + 1;
        }
        assert(fns.subrange(0, fns.len() as int) =~= fns);
        proof {
            crate::model::lemma_published_contains(pre.table, fns);
            assert(self@.modules.subrange(0, pre.modules.len() as int) =~= pre.modules);
        }
        let ghost published_state = self@;
        let ghost stack0 = strings_view(stack@);
        stack.push(path.clone());
        assert(strings_view(stack@) =~= stack0.push(path@));
        proof {
            lemma_unvisited_push(s, stack0, path@);
        }
        let mut d: usize = 0;
        while d < info.dependencies.len()
            invariant
                self.wf(),
                s == modules_view(store@),
                pre == old(self)@,
                m == info@,
                fns == m.functions,
                stack0 == strings_view(old(stack)@),
                stack@ == old(stack)@.push(stack@.last()),
                stack@.len() == old(stack)@.len() + 1,
                strings_view(stack@) == stack0.push(path@),
                unvisited(s, strings_view(stack@)) < unvisited(s, stack0),
                !stack0.contains(path@),
                !tracks(pre.modules, path@),
                lookup(s, path@) == Some(m),
                m.path == path@,
                d <= m.dependencies.len(),
                loaded_from(pre, self@, s),
                forall|i: int|
                    pre.modules.len() <= i < self@.modules.len() ==> !strings_view(stack@).contains(
                        #[trigger] self@.modules[i].path,
                    ),
                forall|q: int| 0 <= q < d ==> tracks(self@.modules, m.dependencies[q]),
                forall|q: int| 0 <= q < fns.len() ==> self@.table.contains_key(fns[q].path),
                d == 0 ==> self@ == published_state,
                published_state.table == published(pre.table, fns),
                published_state.modules == pre.modules,
                load_deps(pre.modules, published(pre.table, fns), s, stack0.push(path@), m.dependencies, 0)
                    == load_deps(self@.modules, self@.table, s, stack0.push(path@), m.dependencies, d as int),
            decreases m.dependencies.len() - d,
        {
            let ghost before = self@;
            assert(m.dependencies[d as int] == info.dependencies@[d as int]@);
            let res = self.add_rec(&info.dependencies[d], store, stack);
            match res {
                Ok(()) => {},
                Err(e) => {
                    stack.pop();
                    assert(stack@ =~= old(stack)@);
                    proof {
                        assert(self@.modules.subrange(0, pre.modules.len() as int) =~= pre.modules)
                            by {
                            assert forall|i: int| 0 <= i < pre.modules.len() implies self@.modules[i]
                                == pre.modules[i] by {
                                assert(self@.modules[i] == self@.modules.subrange(
                                    0,
                                    before.modules.len() as int,
                                )[i]);
                                assert(before.modules[i] == before.modules.subrange(
                                    0,
                                    pre.modules.len() as int,
                                )[i]);
                            }
                        }
                    }
                    return Err(e);
                },
            }
            proof {
                lemma_loaded_trans(pre, before, self@, s);
                assert forall|i: int|
                    pre.modules.len() <= i < self@.modules.len() implies !strings_view(
                    stack@,
                ).contains(#[trigger] self@.modules[i].path) by {
                    if i < before.modules.len() {
                        assert(self@.modules[i] == self@.modules.subrange(
                            0,
                            before.modules.len() as int,
                        )[i]);
                    }
                }
                assert forall|q: int| 0 <= q < d + 1 implies tracks(
                    self@.modules,
                    m.dependencies[q],
                ) by {
                    if q < d {
                        lemma_tracks_prefix(before.modules, self@.modules, m.dependencies[q]);
                    }
                }
            }
            d = d + 1;
        }
        match self.unresolved_import(&info.imports) {
            Some(q) => {
                assert(m.imports[q as int] == info.imports@[q as int]@);
                let missing = info.imports[q].clone();
                stack.pop();
                assert(stack@ =~= old(stack)@);
                assert(self@.modules.subrange(0, pre.modules.len() as int) =~= pre.modules);
                return Err(RuntimeError::LinkFailed(path.clone(), missing));
            },
            None => {
                assert forall|x: int| 0 <= x < m.imports.len() implies self@.table.contains_key(
                    m.imports[x],
                ) by {
                    assert(m.imports[x] == strings_view(info.imports@)[x]);
                }
            },
        }
        stack.pop();
        assert(stack@ =~= old(stack)@);
        let ghost mid = self@;
        assert(!tracks(mid.modules, path@)) by {
            if tracks(mid.modules, path@) {
                let w = choose|w: int| 0 <= w < mid.modules.len() && mid.modules[w].path == path@;
                if w < pre.modules.len() {
                    assert(mid.modules[w] == mid.modules.subrange(0, pre.modules.len() as int)[w]);
                } else {
                    assert(stack0.push(path@)[stack0.len() as int] == path@);
                }
            }
        }
        self.assemblies.push(Assembly { info });
        assert(self@.modules =~= mid.modules.push(m));
        assert(paths_unique(self@.modules)) by {
            assert forall|a: int, b: int|
                0 <= a < b < self@.modules.len() implies self@.modules[a].path
                != self@.modules[b].path by {
                if b == mid.modules.len() {
                    assert(self@.modules[a] == mid.modules[a]);
                } else {
                    assert(self@.modules[a] == mid.modules[a]);
                    assert(self@.modules[b] == mid.modules[b]);
                }
            }
        }
        assert(self@.modules[mid.modules.len() as int].path == path@);
        assert(loaded_from(mid, self@, s)) by {
            assert(self@.modules.subrange(0, mid.modules.len() as int) =~= mid.modules);
            assert(newly_loaded(mid, self@, s, m)) by {
                assert forall|x: int| 0 <= x < m.dependencies.len() implies tracks(
                    self@.modules,
                    m.dependencies[x],
                ) by {
                    lemma_tracks_prefix(mid.modules, self@.modules, m.dependencies[x]);
                }
            }
        }
        assert(newly_loaded(pre, self@, s, m)) by {
            assert forall|x: int| 0 <= x < m.dependencies.len() implies tracks(
                self@.modules,
                m.dependencies[x],
            ) by {
                lemma_tracks_prefix(mid.modules, self@.modules, m.dependencies[x]);
            }
        }
        proof {
            lemma_loaded_trans(pre, mid, self@, s);
            assert forall|i: int|
                pre.modules.len() <= i < self@.modules.len() implies !strings_view(
                old(stack)@,
            ).contains(#[trigger] self@.modules[i].path) by {
                if i < mid.modules.len() {
                    assert(self@.modules[i] == mid.modules[i]);
                    if stack0.contains(mid.modules[i].path) {
                        let w = choose|w: int| 0 <= w < stack0.len() && stack0[w] == mid.modules[i].path;
                        assert(stack0.push(path@)[w] == stack0[w]);
                    }
                }
            }
        }
        Ok(())
    }
}


/// Options for constructing a [`Runtime`].
#[derive(Debug)]
pub struct RuntimeOptions {
    /// Canonical path of the entry module.
    pub library_path: String,
    /// Milliseconds during which file events are collected and deduplicated
    /// before they are emitted.
    pub delay_ms: u64,
}

/// The delay a new [`RuntimeBuilder`] starts with, in milliseconds.
pub const DEFAULT_DELAY_MS: u64 = 10;

/// Collects the options of a [`Runtime`].
#[derive(Debug)]
pub struct RuntimeBuilder {
    pub options: RuntimeOptions,
}

impl RuntimeBuilder {
    /// A builder for the module at `library_path`, with the default delay.
    pub fn new(library_path: String) -> (r: RuntimeBuilder)
        ensures
            r.options.library_path@ == library_path@,
            r.options.delay_ms == DEFAULT_DELAY_MS,
    {
        RuntimeBuilder { options: RuntimeOptions { library_path, delay_ms: DEFAULT_DELAY_MS } }
    }

    /// Sets the event delay, in milliseconds.
    pub fn set_delay(&mut self, delay_ms: u64)
        ensures
            final(self).options.delay_ms == delay_ms,
            final(self).options.library_path@ == old(self).options.library_path@,
    {
        self.options.delay_ms = delay_ms;
    }

    /// Builds a [`Runtime`] whose entry module and its dependencies come from `store`.
    pub fn spawn(self, store: &Vec<ModuleInfo>) -> (r: Result<Runtime, RuntimeError>)
        ensures
            spawn_matches(r, modules_view(store@), self.options.library_path@),
            match r {
                Ok(rt) => rt.wf() && spawned(self.options.library_path@, rt@, modules_view(store@)),
                Err(_) => true,
            },
            lookup(modules_view(store@), self.options.library_path@) is None ==> (match r {
                Err(RuntimeError::LoadFailed(q)) => q@ == self.options.library_path@,
                _ => false,
            }),
    {
        Runtime::new(self.options, store)
    }
}

/// A construction's result `r` is what loading `p` into an empty runtime gives.
pub open spec fn spawn_matches(r: Result<Runtime, RuntimeError>, store: Seq<ModuleView>, p: Seq<char>) -> bool {
    match (r, load_walk(Seq::empty(), Map::empty(), store, Seq::empty(), p)) {
        (Ok(rt), Ok(st)) => rt.wf() && rt@.modules == st.0 && rt@.table == st.1 && rt@.events.len()
            == 0,
        (Err(e), Err(f)) => failure_of(e) == f,
        _ => false,
    }
}

/// `v` is a runtime freshly built for the entry module at `p`: it tracks `p`,
/// and every module it tracks was loaded from `store` as a whole.
pub open spec fn spawned(p: Seq<char>, v: RuntimeView, store: Seq<ModuleView>) -> bool {
    &&& tracks(v.modules, p)
    &&& v.events.len() == 0
    &&& forall|i: int| 0 <= i < v.modules.len() ==> #[trigger] newly_loaded(
        RuntimeView { modules: Seq::empty(), table: Map::empty(), events: v.events },
        v,
        store,
        v.modules[i],
    )
}

impl Runtime {
    /// Adds the module at canonical path `library_path` and, depth first, the
    /// modules it depends on, reading their metadata from `store`, and links
    /// it. On failure the runtime is left exactly as it was.
    pub fn add_assembly(&mut self, library_path: &String, store: &Vec<ModuleInfo>) -> (r: Result<
        (),
        RuntimeError,
    >)
        requires
            old(self).wf(),
        ensures
            final(self).wf(),
            tracks(old(self)@.modules, library_path@) ==> (match r {
                Err(RuntimeError::AlreadyLoaded(q)) => q@ == library_path@,
                _ => false,
            }),
            !tracks(old(self)@.modules, library_path@) && lookup(
                modules_view(store@),
                library_path@,
            ) is None ==> (match r {
                Err(RuntimeError::LoadFailed(q)) => q@ == library_path@,
                _ => false,
            }),
            !tracks(old(self)@.modules, library_path@) && is_leaf(
                modules_view(store@),
                library_path@,
            ) ==> (r is Ok <==> imports_resolve(
                old(self)@.table,
                lookup(modules_view(store@), library_path@).unwrap(),
            )),
            walk_matches(
                r,
                final(self)@,
                load_walk(
                    old(self)@.modules,
                    old(self)@.table,
                    modules_view(store@),
                    Seq::empty(),
                    library_path@,
                ),
            ),
            r is Err ==> final(self)@ == old(self)@,
            r is Ok ==> final(self)@.events == old(self)@.events,
            r is Ok ==> loaded_from(old(self)@, final(self)@, modules_view(store@)),
            r is Ok ==> tracks(final(self)@.modules, library_path@),
    {
        let saved = self.dispatch_table.copy();
        let n = self.assemblies.len();
        let mut stack: Vec<String> = Vec::new();
        assert(strings_view(stack@) =~= Seq::<Seq<char>>::empty());
        let r = self.add_rec(library_path, store, &mut stack);
        if r.is_err() {
            let ghost grown = self.assemblies@;
            self.assemblies.truncate(n);
            self.dispatch_table = saved;
            assert(self.assemblies@ =~= grown.subrange(0, n as int));
            assert(self@.modules =~= old(self)@.modules) by {
                assert forall|i: int| 0 <= i < n implies self@.modules[i] == old(self)@.modules[i] by {
                    assert(assemblies_view(grown).subrange(0, n as int)[i] == assemblies_view(grown)[i]);
                }
            }
        }
        r
    }

    /// Builds a runtime and loads the entry module named by `options`, with
    /// its dependencies, from `store`.
    pub fn new(options: RuntimeOptions, store: &Vec<ModuleInfo>) -> (r: Result<Runtime, RuntimeError>)
        ensures
            spawn_matches(r, modules_view(store@), options.library_path@),
            match r {
                Ok(rt) => rt.wf() && spawned(options.library_path@, rt@, modules_view(store@)),
                Err(_) => true,
            },
            lookup(modules_view(store@), options.library_path@) is None ==> (match r {
                Err(RuntimeError::LoadFailed(q)) => q@ == options.library_path@,
                _ => false,
            }),
    {
        let mut runtime = Runtime::empty();
        let ghost e = runtime@;
        match runtime.add_assembly(&options.library_path, store) {
            Ok(()) => {
                assert(e.modules =~= Seq::<ModuleView>::empty());
                assert(e == RuntimeView {
                    modules: Seq::empty(),
                    table: Map::empty(),
                    events: runtime@.events,
                });
                Ok(runtime)
            },
            Err(err) => {
                assert(e.modules =~= Seq::<ModuleView>::empty());
                Err(err)
            },
        }
    }
}

} // verus!
