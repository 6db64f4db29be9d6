use vstd::prelude::*;

use crate::abi::{strings_view, FunctionInfo, FunctionView};

verus! {

/// Maps fully-qualified function paths to the descriptor that currently
/// answers that path. At most one descriptor is held per path.
pub struct DispatchTable {
    keys: Vec<String>,
    infos: Vec<FunctionInfo>,
    model: Ghost<Map<Seq<char>, FunctionView>>,
}

impl View for DispatchTable {
    type V = Map<Seq<char>, FunctionView>;

    closed spec fn view(&self) -> Map<Seq<char>, FunctionView> {
        self.model@
    }
}

impl DispatchTable {
    /// The table's internal invariant: one entry per key, mirrored by its model.
    pub closed spec fn wf(&self) -> bool {
        &&& self.keys@.len() == self.infos@.len()
        &&& forall|i: int, j: int|
            0 <= i < j < self.keys@.len() ==> self.keys@[i]@ != self.keys@[j]@
        &&& forall|i: int|
            0 <= i < self.keys@.len() ==> #[trigger] self.model@.contains_key(self.keys@[i]@)
                && self.model@[self.keys@[i]@] == self.infos@[i]@
        &&& forall|k: Seq<char>|
            #[trigger] self.model@.contains_key(k) ==> exists|i: int|
                0 <= i < self.keys@.len() && self.keys@[i]@ == k
    }

    /// An empty table.
    pub fn new() -> (r: DispatchTable)
        ensures
            r.wf(),
            r@ == Map::<Seq<char>, FunctionView>::empty(),
    {
        DispatchTable { keys: Vec::new(), infos: Vec::new(), model: Ghost(Map::empty()) }
    }

    /// The position of `path` among the keys, if it is present.
    fn find(&self, path: &String) -> (r: Option<usize>)
        requires
            self.wf(),
        ensures
            match r {
                Some(i) => i < self.keys@.len() && self.keys@[i as int]@ == path@,
                None => !self@.contains_key(path@),
            },
    {
        let mut i: usize = 0;
        while i < self.keys.len()
            invariant
                self.wf(),
                i <= self.keys@.len(),
                forall|j: int| 0 <= j < i ==> self.keys@[j]@ != path@,
            decreases self.keys@.len() - i,
        {
            if self.keys[i] == *path {
                return Some(i);
            }
            i = i + 1;
        }
        None
    }

    /// An independent copy of this table.
    pub fn copy(&self) -> (r: DispatchTable)
        requires
            self.wf(),
        ensures
            r.wf(),
            r@ == self@,
    {
        let mut keys: Vec<String> = Vec::new();
        let mut infos: Vec<FunctionInfo> = Vec::new();
        let mut i: usize = 0;
        while i < self.keys.len()
            invariant
                self.wf(),
                i <= self.keys@.len(),
                keys@.len() == i,
                infos@.len() == i,
                forall|k: int| 0 <= k < i ==> keys@[k]@ == self.keys@[k]@,
                forall|k: int| 0 <= k < i ==> infos@[k]@ == self.infos@[k]@,
            decreases self.keys@.len() - i,
        {
            keys.push(self.keys[i].clone());
            infos.push(self.infos[i].copy());
            i = i + 1;
        }
        let r = DispatchTable { keys, infos, model: Ghost(self.model@) };
        assert forall|k: Seq<char>| #[trigger] r.model@.contains_key(k) implies exists|j: int|
            0 <= j < r.keys@.len() && r.keys@[j]@ == k by {
            let j = choose|j: int| 0 <= j < self.keys@.len() && self.keys@[j]@ == k;
            assert(r.keys@[j]@ == k);
        }
        assert forall|a: int|
            0 <= a < r.keys@.len() implies #[trigger] r.model@.contains_key(r.keys@[a]@)
                && r.model@[r.keys@[a]@] == r.infos@[a]@ by {
            assert(self.model@.contains_key(self.keys@[a]@));
        }
        r
    }

    /// The number of entries.
    pub fn len(&self) -> (r: usize)
        requires
            self.wf(),
        ensures
            r == self@.len(),
    {
        proof {
            let ks = strings_view(self.keys@);
            assert(ks.no_duplicates()) by {
                assert forall|i: int, j: int|
                    0 <= i < ks.len() && 0 <= j < ks.len() && i != j implies ks[i] != ks[j] by {
                    if i < j {
                        assert(self.keys@[i]@ != self.keys@[j]@);
                    } else {
                        assert(self.keys@[j]@ != self.keys@[i]@);
                    }
                }
            }
            ks.unique_seq_to_set();
            assert(ks.to_set() =~= self@.dom()) by {
                assert forall|k: Seq<char>| ks.to_set().contains(k) implies self@.dom().contains(k) by {
                    let i = choose|i: int| 0 <= i < ks.len() && ks[i] == k;
                    assert(self.model@.contains_key(self.keys@[i]@));
                }
                assert forall|k: Seq<char>| self@.dom().contains(k) implies ks.to_set().contains(k) by {
                    assert(self.model@.contains_key(k));
                    let i = choose|i: int| 0 <= i < self.keys@.len() && self.keys@[i]@ == k;
                    assert(ks[i] == k);
                }
            }
        }
        self.keys.len()
    }

    /// Whether `fn_path` has an entry.
    pub fn contains(&self, fn_path: &String) -> (r: bool)
        requires
            self.wf(),
        ensures
            r == self@.contains_key(fn_path@),
    {
        match self.find(fn_path) {
            Some(_) => true,
            None => false,
        }
    }

    /// Retrieves the descriptor for `fn_path`, if it exists.
    pub fn get(&self, fn_path: &String) -> (r: Option<&FunctionInfo>)
        requires
            self.wf(),
        ensures
            match r {
                Some(info) => self@.contains_key(fn_path@) && info@ == self@[fn_path@],
                None => !self@.contains_key(fn_path@),
            },
    {
        match self.find(fn_path) {
            Some(i) => {
                assert(self.model@.contains_key(self.keys@[i as int]@));
                Some(&self.infos[i])
            },
            None => None,
        }
    }

    /// Inserts `fn_info` under `fn_path`, returning the entry it replaces, if any.
    pub fn insert(&mut self, fn_path: &String, fn_info: FunctionInfo) -> (r: Option<FunctionInfo>)
        requires
            old(self).wf(),
        ensures
            final(self).wf(),
            final(self)@ == old(self)@.insert(fn_path@, fn_info@),
            match r {
                Some(prev) => old(self)@.contains_key(fn_path@) && prev@ == old(self)@[fn_path@],
                None => !old(self)@.contains_key(fn_path@),
            },
    {
        let ghost new_model = self.model@.insert(fn_path@, fn_info@);
        match self.find(fn_path) {
            Some(i) => {
                assert(old(self).model@.contains_key(self.keys@[i as int]@));
                let prev = self.infos[i].copy();
                self.infos.set(i, fn_info);
                self.model = Ghost(new_model);
                assert forall|a: int|
                    0 <= a < self.keys@.len() implies #[trigger] self.model@.contains_key(self.keys@[a]@)
                        && self.model@[self.keys@[a]@] == self.infos@[a]@ by {
                    if a != i {
                        assert(old(self).model@.contains_key(old(self).keys@[a]@));
                    }
                }
                assert forall|k: Seq<char>| #[trigger] self.model@.contains_key(k) implies exists|j: int|
                    0 <= j < self.keys@.len() && self.keys@[j]@ == k by {
                    if k != fn_path@ {
                        assert(old(self)@.contains_key(k));
                    }
                }
                Some(prev)
            },
            None => {
                self.keys.push(fn_path.clone());
                self.infos.push(fn_info);
                self.model = Ghost(new_model);
                let ghost n = self.keys@.len() - 1;
                assert(self.keys@[n]@ == fn_path@);
                assert forall|k: Seq<char>| #[trigger] self.model@.contains_key(k) implies exists|j: int|
                    0 <= j < self.keys@.len() && self.keys@[j]@ == k by {
                    if k != fn_path@ {
                        assert(old(self)@.contains_key(k));
                        let j = choose|j: int| 0 <= j < old(self).keys@.len() && old(self).keys@[j]@ == k;
                        assert(self.keys@[j] == old(self).keys@[j]);
                    }
                }
                assert forall|i: int|
                    0 <= i < self.keys@.len() implies #[trigger] self.model@.contains_key(self.keys@[i]@)
                        && self.model@[self.keys@[i]@] == self.infos@[i]@ by {
                    if i < n {
                        assert(old(self).keys@[i] == self.keys@[i]);
                        assert(old(self)@.contains_key(old(self).keys@[i]@));
                    }
                }
                None
            },
        }
    }

    /// Removes and returns the entry for `fn_path`, if it exists.
    pub fn remove(&mut self, fn_path: &String) -> (r: Option<FunctionInfo>)
        requires
            old(self).wf(),
        ensures
            final(self).wf(),
            final(self)@ == old(self)@.remove(fn_path@),
            match r {
                Some(prev) => old(self)@.contains_key(fn_path@) && prev@ == old(self)@[fn_path@],
                None => !old(self)@.contains_key(fn_path@),
            },
    {
        match self.find(fn_path) {
            Some(i) => {
                assert(self.model@.contains_key(self.keys@[i as int]@));
                let ghost old_keys = self.keys@;
                let ghost old_infos = self.infos@;
                self.keys.remove(i);
                let prev = self.infos.remove(i);
                self.model = Ghost(self.model@.remove(fn_path@));
                assert forall|a: int, b: int|
                    0 <= a < b < self.keys@.len() implies self.keys@[a]@ != self.keys@[b]@ by {
                    let oa = if a < i { a } else { a + 1 };
                    let ob = if b < i { b } else { b + 1 };
                    assert(self.keys@[a] == old_keys[oa]);
                    assert(self.keys@[b] == old_keys[ob]);
                }
                assert forall|a: int|
                    0 <= a < self.keys@.len() implies #[trigger] self.model@.contains_key(self.keys@[a]@)
                        && self.model@[self.keys@[a]@] == self.infos@[a]@ by {
                    let oa = if a < i { a } else { a + 1 };
                    assert(self.keys@[a] == old_keys[oa]);
                    assert(self.infos@[a] == old_infos[oa]);
                    assert(old(self)@.contains_key(old_keys[oa]@));
                }
                assert forall|k: Seq<char>| #[trigger] self.model@.contains_key(k) implies exists|j: int|
                    0 <= j < self.keys@.len() && self.keys@[j]@ == k by {
                    assert(old(self)@.contains_key(k));
                    let j = choose|j: int| 0 <= j < old_keys.len() && old_keys[j]@ == k;
                    assert(j != i);
                    if j < i {
                        assert(self.keys@[j] == old_keys[j]);
                    } else {
                        assert(self.keys@[j - 1] == old_keys[j]);
                    }
                }
                Some(prev)
            },
            None => {
                assert(self.model@.remove(fn_path@) =~= self.model@);
                None
            },
        }
    }
}

impl Default for DispatchTable {
    fn default() -> (r: DispatchTable)
        ensures
            r.wf(),
            r@ == Map::<Seq<char>, FunctionView>::empty(),
    {
        DispatchTable::new()
    }
}

} // verus!
