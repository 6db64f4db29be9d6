use vstd::prelude::*;

use crate::abi::{FunctionView, ModuleView, TypeTag};
use crate::invoke::{call_outcome, first_mismatch, CallOutcome};
use crate::model::{
    lemma_published_contains, lemma_published_entry, lemma_published_other, lemma_withdrawn,
    lookup, swapped, tracks,
};
use crate::runtime::{load_walk, loaded_from, newly_loaded, reloaded, LoadFailure, RuntimeView};

verus! {

/// The module that `lookup` finds for a path has that path.
proof fn lemma_lookup_path(store: Seq<ModuleView>, p: Seq<char>)
    ensures
        lookup(store, p) is Some ==> lookup(store, p).unwrap().path == p,
    decreases store.len(),
{
    if store.len() > 0 && store[0].path != p {
        lemma_lookup_path(store.drop_first(), p);
    }
}

/// Once a module has been loaded, loading the same path again is refused as
/// already loaded.
pub proof fn lemma_second_load_refused(
    modules: Seq<ModuleView>,
    table: Map<Seq<char>, FunctionView>,
    store: Seq<ModuleView>,
    p: Seq<char>,
)
    requires
        load_walk(modules, table, store, Seq::empty(), p) is Ok,
    ensures
        ({
            let st = load_walk(modules, table, store, Seq::empty(), p)->Ok_0;
            load_walk(st.0, st.1, store, Seq::empty(), p) == Err::<
                (Seq<ModuleView>, Map<Seq<char>, FunctionView>),
                LoadFailure,
            >(LoadFailure::AlreadyLoaded(p))
        }),
{
    lemma_lookup_path(store, p);
    let st = load_walk(modules, table, store, Seq::empty(), p)->Ok_0;
    let n = (st.0.len() - 1) as int;
    assert(st.0[n].path == p);
}

/// A module that a load added is the store's module for its path.
proof fn lemma_added_module(pre: RuntimeView, post: RuntimeView, store: Seq<ModuleView>, m: ModuleView)
    requires
        loaded_from(pre, post, store),
        tracks(post.modules, m.path),
        !tracks(pre.modules, m.path),
        lookup(store, m.path) == Some(m),
    ensures
        newly_loaded(pre, post, store, m),
{
    let i = choose|i: int| 0 <= i < post.modules.len() && post.modules[i].path == m.path;
    if i < pre.modules.len() {
        assert(post.modules[i] == post.modules.subrange(0, pre.modules.len() as int)[i]);
    }
    assert(newly_loaded(pre, post, store, post.modules[i]));
}

/// Loading a module whose dependency chain runs `a` to `b` to `c`, none of
/// them loaded before, tracks all three and publishes every function of each.
pub proof fn lemma_dependency_chain(
    pre: RuntimeView,
    post: RuntimeView,
    store: Seq<ModuleView>,
    a: ModuleView,
    b: ModuleView,
    c: ModuleView,
)
    requires
        loaded_from(pre, post, store),
        tracks(post.modules, a.path),
        !tracks(pre.modules, a.path),
        !tracks(pre.modules, b.path),
        !tracks(pre.modules, c.path),
        lookup(store, a.path) == Some(a),
        lookup(store, b.path) == Some(b),
        lookup(store, c.path) == Some(c),
        a.dependencies.contains(b.path),
        b.dependencies.contains(c.path),
    ensures
        tracks(post.modules, a.path),
        tracks(post.modules, b.path),
        tracks(post.modules, c.path),
        forall|j: int| 0 <= j < a.functions.len() ==> post.table.contains_key(a.functions[j].path),
        forall|j: int| 0 <= j < b.functions.len() ==> post.table.contains_key(b.functions[j].path),
        forall|j: int| 0 <= j < c.functions.len() ==> post.table.contains_key(c.functions[j].path),
{
    lemma_added_module(pre, post, store, a);
    let jb = choose|j: int| 0 <= j < a.dependencies.len() && a.dependencies[j] == b.path;
    assert(tracks(post.modules, a.dependencies[jb]));
    lemma_added_module(pre, post, store, b);
    let jc = choose|j: int| 0 <= j < b.dependencies.len() && b.dependencies[j] == c.path;
    assert(tracks(post.modules, b.dependencies[jc]));
    lemma_added_module(pre, post, store, c);
}

/// Reloading a module whose new version exports `new_fns` (one per path) in
/// place of `old_fns`: a path has an entry afterwards exactly when a new
/// function has it, or it had one before and no old function had it; new
/// functions are published as they are, and other entries are untouched.
/// So an unchanged function set keeps the same paths, and adding or removing
/// a function adds or removes exactly its path.
pub proof fn lemma_swap_entries(
    t: Map<Seq<char>, FunctionView>,
    old_fns: Seq<FunctionView>,
    new_fns: Seq<FunctionView>,
    k: Seq<char>,
)
    requires
        forall|i: int, j: int|
            0 <= i < j < new_fns.len() ==> new_fns[i].path != new_fns[j].path,
    ensures
        swapped(t, old_fns, new_fns).contains_key(k) == ((exists|j: int|
            0 <= j < new_fns.len() && new_fns[j].path == k) || (t.contains_key(k) && forall|i: int|
            0 <= i < old_fns.len() ==> old_fns[i].path != k)),
        forall|j: int|
            0 <= j < new_fns.len() && new_fns[j].path == k ==> swapped(t, old_fns, new_fns)[k]
                == new_fns[j],
        (forall|j: int| 0 <= j < new_fns.len() ==> new_fns[j].path != k) && (forall|i: int|
            0 <= i < old_fns.len() ==> old_fns[i].path != k) && t.contains_key(k) ==> swapped(
            t,
            old_fns,
            new_fns,
        )[k] == t[k],
{
    let w = crate::model::withdrawn(t, old_fns);
    lemma_withdrawn(t, old_fns, k);
    lemma_published_contains(w, new_fns);
    if exists|j: int| 0 <= j < new_fns.len() && new_fns[j].path == k {
        let j = choose|j: int| 0 <= j < new_fns.len() && new_fns[j].path == k;
        assert(swapped(t, old_fns, new_fns).contains_key(new_fns[j].path));
    } else {
        lemma_published_other(w, new_fns, k);
    }
    assert forall|j: int| 0 <= j < new_fns.len() && new_fns[j].path == k implies swapped(
        t,
        old_fns,
        new_fns,
    )[k] == new_fns[j] by {
        lemma_published_entry(w, new_fns, j);
    }
}

/// A call that a tracked module's reload makes well-typed succeeds when
/// attempted again afterwards: it resolves to the address that the reloaded
/// module publishes for the path.
pub proof fn lemma_retry_after_reload(
    v: RuntimeView,
    store: Seq<ModuleView>,
    p: Seq<char>,
    m: ModuleView,
    j: int,
    args: Seq<TypeTag>,
    ret: TypeTag,
)
    requires
        tracks(v.modules, p),
        lookup(store, p) == Some(m),
        0 <= j < m.functions.len(),
        forall|i: int| 0 <= i < m.functions.len() && i != j ==> m.functions[i].path
            != m.functions[j].path,
        m.functions[j].params == args,
        m.functions[j].ret == ret,
    ensures
        call_outcome(reloaded(v, store, p).table, m.functions[j].path, args, ret)
            == CallOutcome::Call(m.functions[j].address),
{
    let i = crate::runtime::module_index(v.modules, p);
    let w = crate::model::withdrawn(v.table, v.modules[i].functions);
    lemma_published_contains(w, m.functions);
    lemma_published_entry(w, m.functions, j);
    let f = m.functions[j];
    assert(first_mismatch(f.params, args, 0) is None) by {
        lemma_no_mismatch(f.params, args, 0);
    }
}

proof fn lemma_no_mismatch(params: Seq<TypeTag>, args: Seq<TypeTag>, from: int)
    requires
        params == args,
        0 <= from,
    ensures
        first_mismatch(params, args, from) is None,
    decreases params.len() - from,
{
    if from < params.len() {
        lemma_no_mismatch(params, args, from + 1);
    }
}

} // verus!
