use vstd::prelude::*;

use crate::abi::{FunctionView, ModuleInfo, ModuleView};

verus! {

/// Views of a list of modules.
pub open spec fn modules_view(v: Seq<ModuleInfo>) -> Seq<ModuleView> {
    v.map_values(|m: ModuleInfo| m@)
}

/// The first module in `store` whose path is `p`.
pub open spec fn lookup(store: Seq<ModuleView>, p: Seq<char>) -> Option<ModuleView>
    decreases store.len(),
{
    if store.len() == 0 {
        None
    } else if store[0].path == p {
        Some(store[0])
    } else {
        lookup(store.drop_first(), p)
    }
}

/// Whether some module in `modules` has path `p`.
pub open spec fn tracks(modules: Seq<ModuleView>, p: Seq<char>) -> bool {
    exists|i: int| 0 <= i < modules.len() && modules[i].path == p
}

/// `t` with the entries at the paths of `fns` taken out.
pub open spec fn withdrawn(
    t: Map<Seq<char>, FunctionView>,
    fns: Seq<FunctionView>,
) -> Map<Seq<char>, FunctionView>
    decreases fns.len(),
{
    if fns.len() == 0 {
        t
    } else {
        withdrawn(t, fns.drop_last()).remove(fns.last().path)
    }
}

/// `t` with each function of `fns` entered under its path, later ones winning.
pub open spec fn published(
    t: Map<Seq<char>, FunctionView>,
    fns: Seq<FunctionView>,
) -> Map<Seq<char>, FunctionView>
    decreases fns.len(),
{
    if fns.len() == 0 {
        t
    } else {
        published(t, fns.drop_last()).insert(fns.last().path, fns.last())
    }
}

/// The table after a module exporting `old_fns` is replaced by one exporting `new_fns`.
pub open spec fn swapped(
    t: Map<Seq<char>, FunctionView>,
    old_fns: Seq<FunctionView>,
    new_fns: Seq<FunctionView>,
) -> Map<Seq<char>, FunctionView> {
    published(withdrawn(t, old_fns), new_fns)
}

/// Every function of `fns` has an entry in `published(t, fns)`.
pub proof fn lemma_published_contains(t: Map<Seq<char>, FunctionView>, fns: Seq<FunctionView>)
    ensures
        forall|j: int| 0 <= j < fns.len() ==> published(t, fns).contains_key(#[trigger] fns[j].path),
        forall|k: Seq<char>| t.contains_key(k) ==> published(t, fns).contains_key(k),
    decreases fns.len(),
{
    if fns.len() > 0 {
        lemma_published_contains(t, fns.drop_last());
        assert forall|j: int| 0 <= j < fns.len() implies published(t, fns).contains_key(
            #[trigger] fns[j].path,
        ) by {
            if j < fns.len() - 1 {
                assert(fns.drop_last()[j] == fns[j]);
            }
        }
    }
}

/// A function that is the only one at its path in `fns` is entered unchanged.
pub proof fn lemma_published_entry(
    t: Map<Seq<char>, FunctionView>,
    fns: Seq<FunctionView>,
    j: int,
)
    requires
        0 <= j < fns.len(),
        forall|i: int| 0 <= i < fns.len() && i != j ==> fns[i].path != fns[j].path,
    ensures
        published(t, fns)[fns[j].path] == fns[j],
    decreases fns.len(),
{
    if j < fns.len() - 1 {
        let d = fns.drop_last();
        assert forall|i: int| 0 <= i < d.len() && i != j implies d[i].path != d[j].path by {
            assert(d[i] == fns[i]);
        }
        lemma_published_entry(t, d, j);
    }
}

/// An entry at a path that no function of `fns` has is left as it is.
pub proof fn lemma_published_other(
    t: Map<Seq<char>, FunctionView>,
    fns: Seq<FunctionView>,
    k: Seq<char>,
)
    requires
        forall|i: int| 0 <= i < fns.len() ==> fns[i].path != k,
    ensures
        published(t, fns).contains_key(k) == t.contains_key(k),
        t.contains_key(k) ==> published(t, fns)[k] == t[k],
    decreases fns.len(),
{
    if fns.len() > 0 {
        let d = fns.drop_last();
        assert forall|i: int| 0 <= i < d.len() implies d[i].path != k by {
            assert(d[i] == fns[i]);
        }
        lemma_published_other(t, d, k);
    }
}

/// No function of `fns` has an entry in `withdrawn(t, fns)`; other entries stay.
pub proof fn lemma_withdrawn(t: Map<Seq<char>, FunctionView>, fns: Seq<FunctionView>, k: Seq<char>)
    ensures
        withdrawn(t, fns).contains_key(k) == (t.contains_key(k) && forall|i: int|
            0 <= i < fns.len() ==> fns[i].path != k),
        withdrawn(t, fns).contains_key(k) ==> withdrawn(t, fns)[k] == t[k],
    decreases fns.len(),
{
    if fns.len() > 0 {
        let d = fns.drop_last();
        lemma_withdrawn(t, d, k);
        if withdrawn(t, fns).contains_key(k) {
            assert forall|i: int| 0 <= i < fns.len() implies fns[i].path != k by {
                if i < d.len() {
                    assert(d[i] == fns[i]);
                }
            }
        }
        if t.contains_key(k) && forall|i: int| 0 <= i < fns.len() ==> fns[i].path != k {
            assert forall|i: int| 0 <= i < d.len() implies d[i].path != k by {
                assert(d[i] == fns[i]);
            }
        }
    }
}

} // verus!
