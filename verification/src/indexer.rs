use vstd::prelude::*;

use crate::assoc::{contains_str, find_key, has_key, index_of_key, unique_keys, value_of};
use crate::dependency_resolver::DependencyResolver;
use crate::file_hashes::FileHashManager;
use crate::name_map::{binds, name_map_add, name_map_wf, no_empty_entries};
use crate::symbol::{RawSymbol, Symbol};
use crate::symbol_store::{graph_wf, lemma_graph_wf_push, same_core, SymbolStore};

verus! {

/// Some extracted symbol has identity `h`.
pub open spec fn is_new_id(raws: Seq<RawSymbol>, h: Seq<char>) -> bool {
    exists|i: int| 0 <= i < raws.len() && (#[trigger] raws[i]).identity() == h
}

/// Some extracted symbol is named `n` (the file-local name map has an entry
/// for `n`).
pub open spec fn local_has_name(raws: Seq<RawSymbol>, n: Seq<char>) -> bool {
    exists|i: int| 0 <= i < raws.len() && (#[trigger] raws[i]).name@ == n
}

/// An extracted symbol named `n` has identity `h`.
pub open spec fn local_candidate(raws: Seq<RawSymbol>, n: Seq<char>, h: Seq<char>) -> bool {
    exists|i: int|
        0 <= i < raws.len() && (#[trigger] raws[i]).name@ == n && raws[i].identity() == h
}

/// Identity `c` is a candidate for raw name `n`: file-local candidates take
/// precedence, and the global map is consulted only when the local one has
/// no entry for `n` at all.
pub open spec fn map_candidate(
    local: Seq<(String, Vec<String>)>,
    global: Seq<(String, Vec<String>)>,
    n: Seq<char>,
    c: Seq<char>,
) -> bool {
    if has_key(local, n) {
        binds(local, n, c)
    } else {
        binds(global, n, c)
    }
}

/// The raw symbol refers, through one of its raw names, to candidate `c`.
pub open spec fn raw_resolves_to(
    raw: RawSymbol,
    local: Seq<(String, Vec<String>)>,
    global: Seq<(String, Vec<String>)>,
    c: Seq<char>,
) -> bool {
    exists|k: int|
        0 <= k < raw.dep_names@.len() && map_candidate(
            local,
            global,
            (#[trigger] raw.dep_names@[k])@,
            c,
        )
}

/// Raw name `n` of the raw symbol resolves to no candidate at all.
pub open spec fn name_unresolvable(
    local: Seq<(String, Vec<String>)>,
    global: Seq<(String, Vec<String>)>,
    n: Seq<char>,
) -> bool {
    !has_key(local, n) && !has_key(global, n)
}

/// No earlier extracted symbol has the same identity: this occurrence is the
/// one that gets installed.
pub open spec fn first_occurrence(raws: Seq<RawSymbol>, i: int) -> bool {
    0 <= i < raws.len() && forall|j: int|
        0 <= j < i ==> (#[trigger] raws[j]).identity() != raws[i].identity()
}

/// Some stored symbol is named `n`.
pub open spec fn has_name(t: Seq<(String, Symbol)>, n: Seq<char>) -> bool {
    exists|j: int| 0 <= j < t.len() && (#[trigger] t[j]).1.name@ == n
}

/// The stored symbol with identity `c` is named `n`.
pub open spec fn stored_candidate(t: Seq<(String, Symbol)>, n: Seq<char>, c: Seq<char>) -> bool {
    has_key(t, c) && value_of(t, c).name@ == n
}

/// Identity `c` is what raw name `n` resolves to, judged against the freshly
/// extracted symbols first and the whole table `t` otherwise.
pub open spec fn candidate(
    raws: Seq<RawSymbol>,
    t: Seq<(String, Symbol)>,
    n: Seq<char>,
    c: Seq<char>,
) -> bool {
    if local_has_name(raws, n) {
        local_candidate(raws, n, c)
    } else {
        stored_candidate(t, n, c)
    }
}

/// The unresolved table demands an edge from caller `c` to `d`: some raw
/// name recorded under `c` is the name of the stored symbol `d`.
pub open spec fn requeued_edge(
    res: Seq<(String, Vec<String>)>,
    t: Seq<(String, Symbol)>,
    c: Seq<char>,
    d: Seq<char>,
) -> bool {
    exists|r: Seq<char>| #[trigger] binds(res, c, r) && stored_candidate(t, r, d)
}

/// The raw symbol refers, through one of its raw names, to identity `c`.
pub open spec fn resolves_to(
    raw: RawSymbol,
    raws: Seq<RawSymbol>,
    t: Seq<(String, Symbol)>,
    c: Seq<char>,
) -> bool {
    exists|k: int|
        0 <= k < raw.dep_names@.len() && candidate(raws, t, (#[trigger] raw.dep_names@[k])@, c)
}

/// The incremental symbol index: per-file fingerprints for change detection,
/// the symbol graph, and the table of references that have not resolved yet.
pub struct Indexer {
    /// Maps file paths to the fingerprint of their content as last indexed.
    pub file_hashes: FileHashManager,
    /// Maps symbol identities to their symbols.
    pub symbol_store: SymbolStore,
    /// Records references that could not be resolved yet.
    pub dependency_resolver: DependencyResolver,
}

impl Indexer {
    /// Everything a finished public operation guarantees: the three parts are
    /// well formed, the dependency graph is symmetric, self-edge free and
    /// closed, and every unresolved entry belongs to a stored symbol.
    pub open spec fn wf(self) -> bool {
        &&& self.file_hashes.wf()
        &&& self.symbol_store.wf()
        &&& self.dependency_resolver.wf()
        &&& graph_wf(self.symbol_store.table())
        &&& forall|j: int|
            0 <= j < self.dependency_resolver.table().len() ==> has_key(
                self.symbol_store.table(),
                (#[trigger] self.dependency_resolver.table()[j]).0@,
            )
    }

    /// An empty index.
    pub fn new() -> (r: Indexer)
        ensures
            r.wf(),
            r.file_hashes.table().len() == 0,
            r.symbol_store.table().len() == 0,
            r.dependency_resolver.table().len() == 0,
    {
        Indexer {
            file_hashes: FileHashManager::new(),
            symbol_store: SymbolStore::new(),
            dependency_resolver: DependencyResolver::new(),
        }
    }

    /// The paths of all files with a recorded fingerprint.
    pub fn get_indexed_files(&self) -> (r: Vec<String>)
        ensures
            r@.len() == self.file_hashes.table().len(),
            forall|i: int| 0 <= i < r@.len() ==> r@[i]@ == self.file_hashes.table()[i].0@,
    {
        self.file_hashes.keys()
    }

    /// The stored (identity, symbol) entries.
    pub fn get_symbols(&self) -> (r: &Vec<(String, Symbol)>)
        ensures
            r@ == self.symbol_store.table(),
    {
        self.symbol_store.get_symbols()
    }

    /// True iff `file_path` has no recorded fingerprint equal to `file_hash`.
    pub fn has_changed(&self, file_path: &String, file_hash: &String) -> (r: bool)
        requires
            self.wf(),
        ensures
            r == crate::file_hashes::spec_has_changed(
                self.file_hashes.table(),
                file_path@,
                file_hash@,
            ),
    {
        self.file_hashes.has_changed(file_path, file_hash)
    }

    /// The (identity, name) pairs of every stored symbol that lives in
    /// `file_path`, in table order.
    fn collect_file_victims(&self, file_path: &String) -> (victims: Vec<(String, String)>)
        requires
            self.symbol_store.wf(),
        ensures
            unique_keys(victims@),
            forall|p: int|
                0 <= p < victims@.len() ==> {
                    let h = (#[trigger] victims@[p]).0@;
                    &&& has_key(self.symbol_store.table(), h)
                    &&& value_of(self.symbol_store.table(), h).file_path@ == file_path@
                    &&& value_of(self.symbol_store.table(), h).name@ == victims@[p].1@
                },
            forall|h: Seq<char>|
                #[trigger] has_key(victims@, h) == (has_key(self.symbol_store.table(), h)
                    && value_of(self.symbol_store.table(), h).file_path@ == file_path@),
    {
        let t = self.symbol_store.get_symbols();
        let n = t.len();
        let mut victims: Vec<(String, String)> = Vec::new();
        let mut i: usize = 0;
        while i < n
            invariant
                n == t@.len(),
                t@ == self.symbol_store.table(),
                self.symbol_store.wf(),
                i <= n,
                unique_keys(victims@),
                forall|p: int|
                    0 <= p < victims@.len() ==> {
                        let h = (#[trigger] victims@[p]).0@;
                        &&& has_key(t@, h)
                        &&& index_of_key(t@, h) < i
                        &&& value_of(t@, h).file_path@ == file_path@
                        &&& value_of(t@, h).name@ == victims@[p].1@
                    },
                forall|j: int|
                    0 <= j < i && (#[trigger] t@[j]).1.file_path@ == file_path@ ==> has_key(
                        victims@,
                        t@[j].0@,
                    ),
            decreases n - i,
        {
            let ghost oldv = victims@;
            if t[i].1.file_path == *file_path {
                proof {
                    crate::assoc::lemma_key_at(t@, i as int);
                    if has_key(oldv, t@[i as int].0@) {
                        let p = index_of_key(oldv, t@[i as int].0@);
                        assert(index_of_key(t@, oldv[p].0@) < i);
                        assert(false);
                    }
                }
                victims.push((t[i].0.clone(), t[i].1.name.clone()));
                proof {
                    assert forall|j: int|
                        0 <= j < i + 1 && (#[trigger] t@[j]).1.file_path@
                            == file_path@ implies has_key(victims@, t@[j].0@) by {
                        if j < i {
                            let p = index_of_key(oldv, t@[j].0@);
                            assert(victims@[p].0@ == t@[j].0@);
                        } else {
                            assert(victims@[victims@.len() - 1].0@ == t@[j].0@);
                        }
                    }
                }
            } else {
                proof {
                    crate::assoc::lemma_key_at(t@, i as int);
                    assert forall|j: int|
                        0 <= j < i + 1 && (#[trigger] t@[j]).1.file_path@
                            == file_path@ implies has_key(victims@, t@[j].0@) by {
                        assert(j != i);
                    }
                }
            }
            i = i + 1;
        }
        proof {
            assert forall|h: Seq<char>| #[trigger] has_key(victims@, h) == (has_key(
                self.symbol_store.table(),
                h,
            ) && value_of(self.symbol_store.table(), h).file_path@ == file_path@) by {
                if has_key(victims@, h) {
                    let p = index_of_key(victims@, h);
                    assert(victims@[p].0@ == h);
                }
                if has_key(t@, h) && value_of(t@, h).file_path@ == file_path@ {
                    let j = index_of_key(t@, h);
                    crate::assoc::lemma_key_at(t@, j);
                    assert(t@[j].1.file_path@ == file_path@);
                }
            }
        }
        victims
    }

    /// A victim is listed by identity; its stored name rides along so that a
    /// dependent that loses the edge can be re-queued under the raw name.
    spec fn victims_match_store(self, victims: Seq<(String, String)>) -> bool {
        forall|p: int|
            0 <= p < victims.len() ==> {
                let h = (#[trigger] victims[p]).0@;
                has_key(self.symbol_store.table(), h) && value_of(
                    self.symbol_store.table(),
                    h,
                ).name@ == victims[p].1@
            }
    }

    /// Removes the listed symbols, erases them from every remaining edge set,
    /// drops their own unresolved entries, and re-queues each cut dependency
    /// edge under the removed symbol's name, so that re-indexing the file
    /// that defines the name can repair the edge later.
    fn purge_ids(&mut self, victims: &Vec<(String, String)>)
        requires
            old(self).wf(),
            unique_keys(victims@),
            old(self).victims_match_store(victims@),
        ensures
            final(self).wf(),
            final(self).file_hashes == old(self).file_hashes,
            forall|h: Seq<char>|
                #[trigger] has_key(final(self).symbol_store.table(), h) == (has_key(
                    old(self).symbol_store.table(),
                    h,
                ) && !has_key(victims@, h)),
            forall|h: Seq<char>|
                #[trigger] has_key(final(self).symbol_store.table(), h) ==> {
                    let prev = value_of(old(self).symbol_store.table(), h);
                    let cur = value_of(final(self).symbol_store.table(), h);
                    &&& same_core(cur, prev)
                    &&& forall|d: Seq<char>|
                        #[trigger] contains_str(cur.dependencies@, d) == (contains_str(
                            prev.dependencies@,
                            d,
                        ) && !has_key(victims@, d))
                    &&& forall|u: Seq<char>|
                        #[trigger] contains_str(cur.used_by@, u) == (contains_str(prev.used_by@, u)
                            && !has_key(victims@, u))
                },
            forall|c: Seq<char>|
                #[trigger] has_key(final(self).dependency_resolver.table(), c) ==> has_key(
                    final(self).symbol_store.table(),
                    c,
                ),
    {
        // The victims' bare identities, for the edge sweeps.
        let nv = victims.len();
        let mut ids: Vec<String> = Vec::new();
        let mut p: usize = 0;
        while p < nv
            invariant
                nv == victims@.len(),
                p <= nv,
                ids@.len() == p,
                forall|q: int| 0 <= q < p ==> ids@[q]@ == (#[trigger] victims@[q]).0@,
            decreases nv - p,
        {
            ids.push(victims[p].0.clone());
            p = p + 1;
        }
        proof {
            assert forall|h: Seq<char>| #[trigger] contains_str(ids@, h) == has_key(
                victims@,
                h,
            ) by {
                if contains_str(ids@, h) {
                    let q = choose|q: int| 0 <= q < ids@.len() && ids@[q]@ == h;
                    assert(victims@[q].0@ == h);
                }
                if has_key(victims@, h) {
                    let q = index_of_key(victims@, h);
                    assert(ids@[q]@ == h);
                }
            }
        }
        let lost = self.symbol_store.evict(&ids);
        self.dependency_resolver.purge_callers(&ids);
        // Re-queue each cut dependency edge under the victim's name.
        let ghost store_after = self.symbol_store.table();
        proof {
            assert forall|j: int|
                0 <= j < self.dependency_resolver.table().len() implies has_key(
                store_after,
                (#[trigger] self.dependency_resolver.table()[j]).0@,
            ) by {
                let c = self.dependency_resolver.table()[j].0@;
                assert(has_key(self.dependency_resolver.table(), c));
                assert(has_key(old(self).dependency_resolver.table(), c));
                let j0 = index_of_key(old(self).dependency_resolver.table(), c);
                assert(old(self).dependency_resolver.table()[j0].0@ == c);
            }
        }
        let nl = lost.len();
        let mut q: usize = 0;
        while q < nl
            invariant
                nl == lost@.len(),
                q <= nl,
                self.symbol_store.table() == store_after,
                self.file_hashes == old(self).file_hashes,
                self.file_hashes.wf(),
                self.symbol_store.wf(),
                graph_wf(self.symbol_store.table()),
                self.dependency_resolver.wf(),
                unique_keys(victims@),
                forall|j: int|
                    0 <= j < self.dependency_resolver.table().len() ==> has_key(
                        store_after,
                        (#[trigger] self.dependency_resolver.table()[j]).0@,
                    ),
                forall|pp: int|
                    0 <= pp < lost@.len() ==> has_key(store_after, (#[trigger] lost@[pp]).0@)
                        && has_key(victims@, lost@[pp].1@),
            decreases nl - q,
        {
            let ghost prev_res = self.dependency_resolver.table();
            let caller = lost[q].0.clone();
            let ghost caller_view = caller@;
            match find_key(victims, &lost[q].1) {
                Some(vi) => {
                    self.dependency_resolver.add(caller, victims[vi].1.clone());
                },
                None => {
                    proof {
                        assert(has_key(victims@, lost@[q as int].1@));
                        assert(false);
                    }
                },
            }
            proof {
                assert forall|j: int|
                    0 <= j < self.dependency_resolver.table().len() implies has_key(
                    store_after,
                    (#[trigger] self.dependency_resolver.table()[j]).0@,
                ) by {
                    let c = self.dependency_resolver.table()[j].0@;
                    assert(has_key(self.dependency_resolver.table(), c));
                    if c != caller_view {
                        assert(has_key(prev_res, c));
                        let j0 = index_of_key(prev_res, c);
                        assert(prev_res[j0].0@ == c);
                    } else {
                        assert(has_key(store_after, lost@[q as int].0@));
                    }
                }
            }
            q = q + 1;
        }
    }

    /// The name map over the extracted symbols of one file alone: a name is
    /// bound to the identities of the file's own symbols carrying it.
    pub fn build_local_name_map(&self, symbols: &Vec<RawSymbol>) -> (r: Vec<(String, Vec<String>)>)
        ensures
            name_map_wf(r@),
            no_empty_entries(r@),
            forall|n: Seq<char>, h: Seq<char>|
                #[trigger] binds(r@, n, h) == local_candidate(symbols@, n, h),
    {
        let n = symbols.len();
        let mut r: Vec<(String, Vec<String>)> = Vec::new();
        let mut i: usize = 0;
        while i < n
            invariant
                n == symbols@.len(),
                i <= n,
                name_map_wf(r@),
                no_empty_entries(r@),
                forall|nm: Seq<char>, h: Seq<char>|
                    #[trigger] binds(r@, nm, h) == (exists|j: int|
                        0 <= j < i && (#[trigger] symbols@[j]).name@ == nm
                            && symbols@[j].identity() == h),
            decreases n - i,
        {
            let ghost oldr = r@;
            let hash = symbols[i].core_symbol().hash();
            name_map_add(&mut r, &symbols[i].name, &hash);
            proof {
                assert forall|nm: Seq<char>, h: Seq<char>| #[trigger] binds(r@, nm, h) == (exists|
                    j: int,
                |
                    0 <= j < i + 1 && (#[trigger] symbols@[j]).name@ == nm && symbols@[j].identity()
                        == h) by {
                    if binds(r@, nm, h) {
                        if binds(oldr, nm, h) {
                            let j = choose|j: int|
                                0 <= j < i && (#[trigger] symbols@[j]).name@ == nm
                                    && symbols@[j].identity() == h;
                            assert(0 <= j < i + 1 && symbols@[j].name@ == nm
                                && symbols@[j].identity() == h);
                        } else {
                            assert(symbols@[i as int].name@ == nm && symbols@[i as int].identity()
                                == h);
                        }
                    }
                    if exists|j: int|
                        0 <= j < i + 1 && (#[trigger] symbols@[j]).name@ == nm
                            && symbols@[j].identity() == h {
                        let j = choose|j: int|
                            0 <= j < i + 1 && (#[trigger] symbols@[j]).name@ == nm
                                && symbols@[j].identity() == h;
                        if j < i {
                            assert(binds(oldr, nm, h));
                        }
                    }
                }
            }
            i = i + 1;
        }
        r
    }

    /// Installs the extracted symbols, each with empty edge sets, keyed by
    /// identity. A first extracted occurrence wins over later ones with the
    /// same identity; a stored symbol from an earlier run that shares an
    /// identity with a new one is purged first, edges and all. Returns the
    /// batch of (identity, index into `new_symbols`) pairs actually
    /// installed.
    pub fn insert_new_symbols(&mut self, new_symbols: &Vec<RawSymbol>) -> (batch: Vec<
        (String, usize),
    >)
        requires
            old(self).wf(),
        ensures
            final(self).wf(),
            final(self).file_hashes == old(self).file_hashes,
            unique_keys(batch@),
            forall|p: int|
                0 <= p < batch@.len() ==> {
                    let idx = (#[trigger] batch@[p]).1;
                    &&& idx < new_symbols@.len()
                    &&& new_symbols@[idx as int].identity() == batch@[p].0@
                    &&& forall|i2: int|
                        0 <= i2 < idx ==> (#[trigger] new_symbols@[i2]).identity() != batch@[p].0@
                },
            forall|i: int|
                0 <= i < new_symbols@.len() ==> has_key(
                    batch@,
                    (#[trigger] new_symbols@[i]).identity(),
                ),
            forall|h: Seq<char>|
                #[trigger] has_key(final(self).symbol_store.table(), h) == (has_key(
                    old(self).symbol_store.table(),
                    h,
                ) || is_new_id(new_symbols@, h)),
            forall|p: int|
                0 <= p < batch@.len() ==> {
                    let id = (#[trigger] batch@[p]).0@;
                    let raw = new_symbols@[batch@[p].1 as int];
                    let cur = value_of(final(self).symbol_store.table(), id);
                    &&& has_key(final(self).symbol_store.table(), id)
                    &&& cur.name == raw.name
                    &&& cur.node_kind == raw.node_kind
                    &&& cur.file_path == raw.file_path
                    &&& cur.line_number == raw.line_number
                    &&& cur.start_byte == raw.start_byte
                    &&& cur.end_byte == raw.end_byte
                    &&& cur.dependencies@.len() == 0
                    &&& cur.used_by@.len() == 0
                },
            forall|h: Seq<char>|
                has_key(old(self).symbol_store.table(), h) && !is_new_id(new_symbols@, h) ==> {
                    let prev = value_of(old(self).symbol_store.table(), h);
                    let cur = value_of(final(self).symbol_store.table(), h);
                    &&& #[trigger] has_key(final(self).symbol_store.table(), h)
                    &&& same_core(cur, prev)
                    &&& forall|d: Seq<char>|
                        #[trigger] contains_str(cur.dependencies@, d) == (contains_str(
                            prev.dependencies@,
                            d,
                        ) && !(is_new_id(new_symbols@, d) && has_key(
                            old(self).symbol_store.table(),
                            d,
                        )))
                    &&& forall|u: Seq<char>|
                        #[trigger] contains_str(cur.used_by@, u) == (contains_str(prev.used_by@, u)
                            && !(is_new_id(new_symbols@, u) && has_key(
                            old(self).symbol_store.table(),
                            u,
                        )))
                },
            forall|c: Seq<char>|
                #[trigger] has_key(final(self).dependency_resolver.table(), c) ==> (has_key(
                    final(self).symbol_store.table(),
                    c,
                ) && !is_new_id(new_symbols@, c)),
    {
        let n = new_symbols.len();
        // The batch: one entry per distinct identity, first occurrence first.
        let mut batch: Vec<(String, usize)> = Vec::new();
        let mut i: usize = 0;
        while i < n
            invariant
                n == new_symbols@.len(),
                i <= n,
                unique_keys(batch@),
                forall|p: int|
                    0 <= p < batch@.len() ==> {
                        let idx = (#[trigger] batch@[p]).1;
                        &&& idx < i
                        &&& new_symbols@[idx as int].identity() == batch@[p].0@
                        &&& forall|i2: int|
                            0 <= i2 < idx ==> (#[trigger] new_symbols@[i2]).identity()
                                != batch@[p].0@
                    },
                forall|j: int|
                    0 <= j < i ==> has_key(batch@, (#[trigger] new_symbols@[j]).identity()),
            decreases n - i,
        {
            let ghost oldb = batch@;
            let hash = new_symbols[i].core_symbol().hash();
            match find_key(&batch, &hash) {
                Some(_) => {
                    proof {
                        assert forall|j: int|
                            0 <= j < i + 1 implies has_key(
                            batch@,
                            (#[trigger] new_symbols@[j]).identity(),
                        ) by {}
                    }
                },
                None => {
                    proof {
                        assert forall|i2: int|
                            0 <= i2 < i implies (#[trigger] new_symbols@[i2]).identity()
                            != hash@ by {
                            assert(has_key(batch@, new_symbols@[i2].identity()));
                        }
                    }
                    batch.push((hash, i));
                    proof {
                        assert forall|j: int|
                            0 <= j < i + 1 implies has_key(
                            batch@,
                            (#[trigger] new_symbols@[j]).identity(),
                        ) by {
                            if j < i {
                                let p = index_of_key(oldb, new_symbols@[j].identity());
                                assert(batch@[p].0@ == new_symbols@[j].identity());
                            } else {
                                assert(batch@[batch@.len() - 1].0@ == new_symbols@[j].identity());
                            }
                        }
                    }
                },
            }
            i = i + 1;
        }
        proof {
            assert forall|h: Seq<char>| #[trigger] has_key(batch@, h) == is_new_id(
                new_symbols@,
                h,
            ) by {
                if has_key(batch@, h) {
                    let p = index_of_key(batch@, h);
                    assert(new_symbols@[batch@[p].1 as int].identity() == h);
                }
                if is_new_id(new_symbols@, h) {
                    let j = choose|j: int|
                        0 <= j < new_symbols@.len() && (#[trigger] new_symbols@[j]).identity()
                            == h;
                    assert(has_key(batch@, new_symbols@[j].identity()));
                }
            }
        }
        // Purge stored symbols that share an identity with a new one.
        let ghost store0 = self.symbol_store.table();
        let nb = batch.len();
        let mut victims: Vec<(String, String)> = Vec::new();
        let mut p: usize = 0;
        while p < nb
            invariant
                nb == batch@.len(),
                p <= nb,
                store0 == self.symbol_store.table(),
                self.symbol_store.wf(),
                unique_keys(batch@),
                unique_keys(victims@),
                forall|k: int|
                    0 <= k < victims@.len() ==> {
                        let h = (#[trigger] victims@[k]).0@;
                        &&& has_key(store0, h)
                        &&& has_key(batch@, h)
                        &&& index_of_key(batch@, h) < p
                        &&& value_of(store0, h).name@ == victims@[k].1@
                    },
                forall|q: int|
                    0 <= q < p && has_key(store0, (#[trigger] batch@[q]).0@) ==> has_key(
                        victims@,
                        batch@[q].0@,
                    ),
            decreases nb - p,
        {
            let ghost oldv = victims@;
            match find_key(self.symbol_store.get_symbols(), &batch[p].0) {
                Some(si) => {
                    proof {
                        crate::assoc::lemma_key_at(store0, si as int);
                        crate::assoc::lemma_key_at(batch@, p as int);
                        if has_key(oldv, batch@[p as int].0@) {
                            let k = index_of_key(oldv, batch@[p as int].0@);
                            assert(index_of_key(batch@, oldv[k].0@) < p);
                            assert(false);
                        }
                    }
                    let name = self.symbol_store.get_symbols()[si].1.name.clone();
                    victims.push((batch[p].0.clone(), name));
                    proof {
                        assert forall|q: int|
                            0 <= q < p + 1 && has_key(
                                store0,
                                (#[trigger] batch@[q]).0@,
                            ) implies has_key(victims@, batch@[q].0@) by {
                            if q < p {
                                let k = index_of_key(oldv, batch@[q].0@);
                                assert(victims@[k].0@ == batch@[q].0@);
                            } else {
                                assert(victims@[victims@.len() - 1].0@ == batch@[q].0@);
                            }
                        }
                    }
                },
                None => {
                    proof {
                        assert forall|q: int|
                            0 <= q < p + 1 && has_key(
                                store0,
                                (#[trigger] batch@[q]).0@,
                            ) implies has_key(victims@, batch@[q].0@) by {
                            if q == p {
                                assert(!has_key(store0, batch@[q].0@));
                            }
                        }
                    }
                },
            }
            p = p + 1;
        }
        self.purge_ids(&victims);
        proof {
            assert forall|h: Seq<char>| #[trigger] has_key(victims@, h) == (has_key(store0, h)
                && is_new_id(new_symbols@, h)) by {
                if has_key(victims@, h) {
                    let k = index_of_key(victims@, h);
                    assert(victims@[k].0@ == h);
                }
                if has_key(store0, h) && is_new_id(new_symbols@, h) {
                    let q = index_of_key(batch@, h);
                    assert(batch@[q].0@ == h);
                }
            }
        }
        // Install the batch, each symbol fresh with empty edges.
        let ghost store1 = self.symbol_store.table();
        let ghost res1 = self.dependency_resolver.table();
        let mut p2: usize = 0;
        while p2 < nb
            invariant
                nb == batch@.len(),
                p2 <= nb,
                self.file_hashes == old(self).file_hashes,
                self.file_hashes.wf(),
                self.symbol_store.wf(),
                graph_wf(self.symbol_store.table()),
                self.dependency_resolver.wf(),
                self.dependency_resolver.table() == res1,
                unique_keys(batch@),
                forall|q: int|
                    0 <= q < batch@.len() ==> {
                        let idx = (#[trigger] batch@[q]).1;
                        &&& idx < new_symbols@.len()
                        &&& new_symbols@[idx as int].identity() == batch@[q].0@
                    },
                forall|h: Seq<char>| !has_key(store1, h) ==> !#[trigger] has_key(res1, h),
                forall|c: Seq<char>| #[trigger] has_key(res1, c) ==> has_key(store1, c),
                forall|h: Seq<char>| #[trigger] has_key(store1, h) ==> !has_key(batch@, h),
                forall|h: Seq<char>|
                    #[trigger] has_key(self.symbol_store.table(), h) == (has_key(store1, h) || (
                    has_key(batch@, h) && index_of_key(batch@, h) < p2)),
                forall|h: Seq<char>|
                    #[trigger] has_key(store1, h) ==> value_of(self.symbol_store.table(), h)
                        == value_of(store1, h),
                forall|q: int|
                    0 <= q < p2 ==> {
                        let id = (#[trigger] batch@[q]).0@;
                        let raw = new_symbols@[batch@[q].1 as int];
                        let cur = value_of(self.symbol_store.table(), id);
                        &&& has_key(self.symbol_store.table(), id)
                        &&& cur.name == raw.name
                        &&& cur.node_kind == raw.node_kind
                        &&& cur.file_path == raw.file_path
                        &&& cur.line_number == raw.line_number
                        &&& cur.start_byte == raw.start_byte
                        &&& cur.end_byte == raw.end_byte
                        &&& cur.dependencies@.len() == 0
                        &&& cur.used_by@.len() == 0
                    },
            decreases nb - p2,
        {
            let ghost pret = self.symbol_store.table();
            let sym = new_symbols[batch[p2].1].core_symbol();
            proof {
                crate::assoc::lemma_key_at(batch@, p2 as int);
                assert(!has_key(pret, sym.identity())) by {
                    if has_key(store1, sym.identity()) {
                        assert(!has_key(batch@, sym.identity()));
                    }
                    if has_key(batch@, sym.identity()) && index_of_key(batch@, sym.identity())
                        < p2 {
                        assert(index_of_key(batch@, batch@[p2 as int].0@) == p2);
                    }
                }
            }
            let replaced = self.symbol_store.add_symbol(sym);
            proof {
                assert(replaced is None);
                let newt = self.symbol_store.table();
                assert(newt.last().1 == sym);
                assert(graph_wf(newt)) by {
                    assert(newt =~= pret.push((newt.last().0, sym)));
                    lemma_graph_wf_push(pret, (newt.last().0, sym));
                }
                crate::assoc::lemma_key_at(newt, newt.len() - 1);
                assert(has_key(batch@, sym.identity()));
                assert forall|h: Seq<char>| #[trigger] has_key(store1, h) implies value_of(
                    newt,
                    h,
                ) == value_of(store1, h) by {
                    assert(!has_key(batch@, h));
                    assert(h != sym.identity());
                    assert(has_key(pret, h));
                    assert(has_key(newt, h));
                    assert(value_of(pret, h) == value_of(store1, h));
                }
                assert forall|q: int|
                    0 <= q < p2 + 1 implies {
                    let id = (#[trigger] batch@[q]).0@;
                    let raw = new_symbols@[batch@[q].1 as int];
                    let cur = value_of(newt, id);
                    &&& has_key(newt, id)
                    &&& cur.name == raw.name
                    &&& cur.node_kind == raw.node_kind
                    &&& cur.file_path == raw.file_path
                    &&& cur.line_number == raw.line_number
                    &&& cur.start_byte == raw.start_byte
                    &&& cur.end_byte == raw.end_byte
                    &&& cur.dependencies@.len() == 0
                    &&& cur.used_by@.len() == 0
                } by {
                    let id = batch@[q].0@;
                    crate::assoc::lemma_key_at(batch@, q);
                    if q < p2 {
                        assert(id != sym.identity()) by {
                            crate::assoc::lemma_key_at(batch@, p2 as int);
                            if id == sym.identity() {
                                assert(index_of_key(batch@, id) == q);
                            }
                        }
                        assert(has_key(pret, id));
                        assert(has_key(newt, id));
                        assert(value_of(newt, id) == value_of(pret, id));
                    } else {
                        assert(id == sym.identity());
                        assert(value_of(newt, id) == sym);
                    }
                }
                assert forall|h: Seq<char>| #[trigger] has_key(newt, h) == (has_key(store1, h) || (
                has_key(batch@, h) && index_of_key(batch@, h) < p2 + 1)) by {
                    if has_key(newt, h) {
                        if h != sym.identity() {
                            assert(has_key(pret, h));
                        } else {
                            assert(index_of_key(batch@, h) == p2);
                        }
                    }
                    if has_key(batch@, h) && index_of_key(batch@, h) < p2 + 1 {
                        if index_of_key(batch@, h) < p2 {
                            assert(has_key(pret, h));
                        } else {
                            assert(h == batch@[index_of_key(batch@, h)].0@);
                            assert(h == sym.identity());
                        }
                    }
                }
            }
            p2 = p2 + 1;
        }
        proof {
            assert forall|h: Seq<char>| #[trigger] has_key(self.symbol_store.table(), h) == (
            has_key(old(self).symbol_store.table(), h) || is_new_id(new_symbols@, h)) by {
                if has_key(batch@, h) {
                    crate::assoc::lemma_key_at(batch@, index_of_key(batch@, h));
                }
            }
            assert forall|h: Seq<char>|
                has_key(old(self).symbol_store.table(), h) && !is_new_id(
                    new_symbols@,
                    h,
                ) implies {
                let prev = value_of(old(self).symbol_store.table(), h);
                let cur = value_of(self.symbol_store.table(), h);
                &&& #[trigger] has_key(self.symbol_store.table(), h)
                &&& same_core(cur, prev)
                &&& forall|d: Seq<char>|
                    #[trigger] contains_str(cur.dependencies@, d) == (contains_str(
                        prev.dependencies@,
                        d,
                    ) && !(is_new_id(new_symbols@, d) && has_key(
                        old(self).symbol_store.table(),
                        d,
                    )))
                &&& forall|u: Seq<char>|
                    #[trigger] contains_str(cur.used_by@, u) == (contains_str(prev.used_by@, u)
                        && !(is_new_id(new_symbols@, u) && has_key(
                        old(self).symbol_store.table(),
                        u,
                    )))
            } by {
                assert(!has_key(victims@, h));
                assert(has_key(store1, h));
                assert(value_of(self.symbol_store.table(), h) == value_of(store1, h));
                let prev = value_of(old(self).symbol_store.table(), h);
                let cur = value_of(self.symbol_store.table(), h);
                assert forall|d: Seq<char>| #[trigger] contains_str(cur.dependencies@, d) == (
                contains_str(prev.dependencies@, d) && !(is_new_id(new_symbols@, d) && has_key(
                    old(self).symbol_store.table(),
                    d,
                ))) by {
                    assert(contains_str(cur.dependencies@, d) == (contains_str(
                        prev.dependencies@,
                        d,
                    ) && !has_key(victims@, d)));
                }
                assert forall|u: Seq<char>| #[trigger] contains_str(cur.used_by@, u) == (
                contains_str(prev.used_by@, u) && !(is_new_id(new_symbols@, u) && has_key(
                    old(self).symbol_store.table(),
                    u,
                ))) by {
                    assert(contains_str(cur.used_by@, u) == (contains_str(prev.used_by@, u)
                        && !has_key(victims@, u)));
                }
            }
            assert forall|c: Seq<char>|
                #[trigger] has_key(self.dependency_resolver.table(), c) implies (has_key(
                self.symbol_store.table(),
                c,
            ) && !is_new_id(new_symbols@, c)) by {
                assert(has_key(res1, c));
                assert(has_key(store1, c));
                if is_new_id(new_symbols@, c) {
                    assert(has_key(batch@, c));
                }
            }
        }
        batch
    }

    /// Indexes one file's freshly extracted symbols: evicts the file's old
    /// symbols, installs the new ones, resolves their raw reference names
    /// (file-local definitions first, then the whole index), queues names
    /// with no candidate in the unresolved table, and records the file's
    /// fingerprint. A name's candidates are all symbols carrying it; the
    /// symbol itself is never its own dependency.
    pub fn index_extracted(
        &mut self,
        file_path: &String,
        new_hash: &String,
        new_symbols: &Vec<RawSymbol>,
    )
        requires
            old(self).wf(),
        ensures
            final(self).wf(),
            crate::file_hashes::spec_upserted(
                old(self).file_hashes.table(),
                final(self).file_hashes.table(),
                file_path@,
                new_hash@,
            ),
            forall|h: Seq<char>|
                #[trigger] has_key(final(self).symbol_store.table(), h) == ((has_key(
                    old(self).symbol_store.table(),
                    h,
                ) && value_of(old(self).symbol_store.table(), h).file_path@ != file_path@)
                    || is_new_id(new_symbols@, h)),
            forall|i: int|
                first_occurrence(new_symbols@, i) ==> {
                    let raw = new_symbols@[i];
                    let cur = value_of(final(self).symbol_store.table(), raw.identity());
                    &&& has_key(final(self).symbol_store.table(), raw.identity())
                    &&& cur.name == raw.name
                    &&& cur.node_kind == raw.node_kind
                    &&& cur.file_path == raw.file_path
                    &&& cur.line_number == raw.line_number
                    &&& cur.start_byte == raw.start_byte
                    &&& cur.end_byte == raw.end_byte
                },
            forall|i: int, c: Seq<char>|
                first_occurrence(new_symbols@, i) ==> #[trigger] contains_str(
                    value_of(
                        final(self).symbol_store.table(),
                        (#[trigger] new_symbols@[i]).identity(),
                    ).dependencies@,
                    c,
                ) == (resolves_to(
                    new_symbols@[i],
                    new_symbols@,
                    final(self).symbol_store.table(),
                    c,
                ) && c != new_symbols@[i].identity()),
            forall|i: int, r: Seq<char>|
                first_occurrence(new_symbols@, i) ==> #[trigger] binds(
                    final(self).dependency_resolver.table(),
                    (#[trigger] new_symbols@[i]).identity(),
                    r,
                ) == ((exists|k: int|
                    0 <= k < new_symbols@[i].dep_names@.len() && (
                    #[trigger] new_symbols@[i].dep_names@[k])@ == r) && !local_has_name(
                    new_symbols@,
                    r,
                ) && !has_name(final(self).symbol_store.table(), r)),
            forall|h: Seq<char>|
                #[trigger] has_key(old(self).symbol_store.table(), h) && value_of(
                    old(self).symbol_store.table(),
                    h,
                ).file_path@ != file_path@ && !is_new_id(new_symbols@, h) ==> {
                    let prev = value_of(old(self).symbol_store.table(), h);
                    let cur = value_of(final(self).symbol_store.table(), h);
                    &&& same_core(cur, prev)
                    &&& forall|d: Seq<char>|
                        #[trigger] contains_str(cur.dependencies@, d) == (contains_str(
                            prev.dependencies@,
                            d,
                        ) && !(value_of(old(self).symbol_store.table(), d).file_path@ == file_path@
                            || is_new_id(new_symbols@, d)))
                },
    {
        let ghost s0 = self.symbol_store.table();
        self.remove_deleted_symbols_in_file(file_path);
        let ghost s1 = self.symbol_store.table();
        let local_name_map = self.build_local_name_map(new_symbols);
        let batch = self.insert_new_symbols(new_symbols);
        let ghost s2 = self.symbol_store.table();
        let global_name_map = self.symbol_store.build_name_map();
        proof {
            // Local bindings point into the store: every extracted identity
            // was just installed.
            assert forall|n: Seq<char>, c: Seq<char>|
                #[trigger] binds(local_name_map@, n, c) implies has_key(s2, c) by {
                let i = choose|i: int|
                    0 <= i < new_symbols@.len() && (#[trigger] new_symbols@[i]).name@ == n
                        && new_symbols@[i].identity() == c;
                assert(is_new_id(new_symbols@, c));
            }
            assert forall|p: int|
                0 <= p < batch@.len() implies !has_key(
                self.dependency_resolver.table(),
                (#[trigger] batch@[p]).0@,
            ) by {
                assert(new_symbols@[batch@[p].1 as int].identity() == batch@[p].0@);
                assert(is_new_id(new_symbols@, batch@[p].0@));
            }
        }
        let ghost res2 = self.dependency_resolver.table();
        self.resolve_new_symbols_dependencies(new_symbols, &batch, &local_name_map, &global_name_map);
        let ghost s3 = self.symbol_store.table();
        proof {
            // The maps used during resolution, re-read against the final
            // table: keys and names survived untouched.
            assert forall|h: Seq<char>| #[trigger] has_key(s3, h) implies value_of(s3, h).name@
                == value_of(s2, h).name@ by {
                assert(same_core(value_of(s3, h), value_of(s2, h)));
            }
            assert forall|n: Seq<char>| #[trigger] has_key(local_name_map@, n) == local_has_name(
                new_symbols@,
                n,
            ) by {
                if has_key(local_name_map@, n) {
                    crate::name_map::lemma_has_key_binds(local_name_map@, n);
                    let c0 = value_of(local_name_map@, n)@[0]@;
                    assert(local_candidate(new_symbols@, n, c0));
                    let i = choose|i: int|
                        0 <= i < new_symbols@.len() && (#[trigger] new_symbols@[i]).name@ == n
                            && new_symbols@[i].identity() == c0;
                }
                if local_has_name(new_symbols@, n) {
                    let i = choose|i: int|
                        0 <= i < new_symbols@.len() && (#[trigger] new_symbols@[i]).name@ == n;
                    assert(local_candidate(new_symbols@, n, new_symbols@[i].identity()));
                    assert(binds(local_name_map@, n, new_symbols@[i].identity()));
                }
            }
            assert forall|n: Seq<char>| #[trigger] has_key(global_name_map@, n) == has_name(
                s3,
                n,
            ) by {
                if has_key(global_name_map@, n) {
                    crate::name_map::lemma_has_key_binds(global_name_map@, n);
                    let c0 = value_of(global_name_map@, n)@[0]@;
                    assert(binds(global_name_map@, n, c0));
                    assert(has_key(s2, c0) && value_of(s2, c0).name@ == n);
                    assert(has_key(s3, c0));
                    let j = index_of_key(s3, c0);
                    assert(s3[j].0@ == c0);
                    crate::assoc::lemma_key_at(s3, j);
                    assert(value_of(s3, c0).name@ == value_of(s2, c0).name@);
                    assert(s3[j].1.name@ == n);
                }
                if has_name(s3, n) {
                    let j = choose|j: int| 0 <= j < s3.len() && (#[trigger] s3[j]).1.name@ == n;
                    crate::assoc::lemma_key_at(s3, j);
                    let c0 = s3[j].0@;
                    assert(has_key(s2, c0));
                    assert(value_of(s2, c0).name@ == n);
                    assert(binds(global_name_map@, n, c0));
                }
            }
            assert forall|n: Seq<char>, c: Seq<char>| #[trigger] map_candidate(
                local_name_map@,
                global_name_map@,
                n,
                c,
            ) == candidate(new_symbols@, s3, n, c) by {
                if local_has_name(new_symbols@, n) {
                } else {
                    assert(binds(global_name_map@, n, c) == stored_candidate(s3, n, c)) by {
                        if binds(global_name_map@, n, c) {
                            assert(has_key(s2, c) && value_of(s2, c).name@ == n);
                        }
                        if stored_candidate(s3, n, c) {
                            assert(has_key(s2, c) && value_of(s2, c).name@ == n);
                        }
                    }
                }
            }
            // Each first extracted occurrence is exactly its batch entry.
            assert forall|i: int| first_occurrence(new_symbols@, i) implies {
                &&& has_key(batch@, (#[trigger] new_symbols@[i]).identity())
                &&& batch@[index_of_key(batch@, new_symbols@[i].identity())].1 == i
            } by {
                assert(has_key(batch@, new_symbols@[i].identity()));
                let p = index_of_key(batch@, new_symbols@[i].identity());
                let idx = batch@[p].1;
                assert(new_symbols@[idx as int].identity() == new_symbols@[i].identity());
                if (idx as int) < i {
                    assert(false);
                }
                if i < idx as int {
                    assert(new_symbols@[i].identity() != batch@[p].0@);
                    assert(false);
                }
            }
        }
        self.file_hashes.insert(file_path, new_hash);
        proof {
            // Chain the per-phase descriptions into the contract's view.
            assert forall|h: Seq<char>| #[trigger] has_key(s3, h) == ((has_key(s0, h) && value_of(
                s0,
                h,
            ).file_path@ != file_path@) || is_new_id(new_symbols@, h)) by {}
            assert forall|i: int, c: Seq<char>|
                first_occurrence(new_symbols@, i) implies #[trigger] contains_str(
                value_of(s3, (#[trigger] new_symbols@[i]).identity()).dependencies@,
                c,
            ) == (resolves_to(new_symbols@[i], new_symbols@, s3, c) && c
                != new_symbols@[i].identity()) by {
                let p = index_of_key(batch@, new_symbols@[i].identity());
                crate::assoc::lemma_key_at(batch@, p);
                assert(batch@[p].1 == i);
                assert(contains_str(value_of(s3, batch@[p].0@).dependencies@, c) == (
                raw_resolves_to(
                    new_symbols@[batch@[p].1 as int],
                    local_name_map@,
                    global_name_map@,
                    c,
                ) && c != batch@[p].0@));
                assert(raw_resolves_to(
                    new_symbols@[i],
                    local_name_map@,
                    global_name_map@,
                    c,
                ) == resolves_to(new_symbols@[i], new_symbols@, s3, c)) by {
                    if raw_resolves_to(new_symbols@[i], local_name_map@, global_name_map@, c) {
                        let k = choose|k: int|
                            0 <= k < new_symbols@[i].dep_names@.len() && map_candidate(
                                local_name_map@,
                                global_name_map@,
                                (#[trigger] new_symbols@[i].dep_names@[k])@,
                                c,
                            );
                        assert(candidate(new_symbols@, s3, new_symbols@[i].dep_names@[k]@, c));
                    }
                    if resolves_to(new_symbols@[i], new_symbols@, s3, c) {
                        let k = choose|k: int|
                            0 <= k < new_symbols@[i].dep_names@.len() && candidate(
                                new_symbols@,
                                s3,
                                (#[trigger] new_symbols@[i].dep_names@[k])@,
                                c,
                            );
                        assert(map_candidate(
                            local_name_map@,
                            global_name_map@,
                            new_symbols@[i].dep_names@[k]@,
                            c,
                        ));
                    }
                }
            }
            assert forall|i: int, r: Seq<char>|
                first_occurrence(new_symbols@, i) implies #[trigger] binds(
                self.dependency_resolver.table(),
                (#[trigger] new_symbols@[i]).identity(),
                r,
            ) == ((exists|k: int|
                0 <= k < new_symbols@[i].dep_names@.len() && (
                #[trigger] new_symbols@[i].dep_names@[k])@ == r) && !local_has_name(
                new_symbols@,
                r,
            ) && !has_name(s3, r)) by {
                let p = index_of_key(batch@, new_symbols@[i].identity());
                crate::assoc::lemma_key_at(batch@, p);
                assert(batch@[p].1 == i);
                assert(binds(self.dependency_resolver.table(), batch@[p].0@, r) == (exists|k: int|
                    0 <= k < new_symbols@[batch@[p].1 as int].dep_names@.len() && (
                    #[trigger] new_symbols@[batch@[p].1 as int].dep_names@[k])@ == r
                        && name_unresolvable(local_name_map@, global_name_map@, r)));
            }
            assert forall|h: Seq<char>|
                #[trigger] has_key(s0, h) && value_of(s0, h).file_path@ != file_path@ && !is_new_id(
                    new_symbols@,
                    h,
                ) implies {
                let prev = value_of(s0, h);
                let cur = value_of(s3, h);
                &&& same_core(cur, prev)
                &&& forall|d: Seq<char>|
                    #[trigger] contains_str(cur.dependencies@, d) == (contains_str(
                        prev.dependencies@,
                        d,
                    ) && !(value_of(s0, d).file_path@ == file_path@ || is_new_id(new_symbols@, d)))
            } by {
                assert(has_key(s1, h));
                assert(has_key(s2, h));
                assert(!has_key(batch@, h)) by {
                    if has_key(batch@, h) {
                        let p = index_of_key(batch@, h);
                        assert(new_symbols@[batch@[p].1 as int].identity() == h);
                        assert(is_new_id(new_symbols@, h));
                    }
                }
                assert(value_of(s3, h).dependencies == value_of(s2, h).dependencies);
                assert(has_key(s3, h));
                assert(same_core(value_of(s3, h), value_of(s2, h)));
                assert(same_core(value_of(s2, h), value_of(s1, h)));
                assert(same_core(value_of(s1, h), value_of(s0, h)));
                let prev = value_of(s0, h);
                let cur = value_of(s3, h);
                assert forall|d: Seq<char>| #[trigger] contains_str(cur.dependencies@, d) == (
                contains_str(prev.dependencies@, d) && !(value_of(s0, d).file_path@ == file_path@
                    || is_new_id(new_symbols@, d))) by {
                    assert(contains_str(cur.dependencies@, d) == contains_str(
                        value_of(s2, h).dependencies@,
                        d,
                    ));
                    assert(contains_str(value_of(s2, h).dependencies@, d) == (contains_str(
                        value_of(s1, h).dependencies@,
                        d,
                    ) && !(is_new_id(new_symbols@, d) && has_key(s1, d))));
                    assert(contains_str(value_of(s1, h).dependencies@, d) == (contains_str(
                        prev.dependencies@,
                        d,
                    ) && !(has_key(s0, d) && value_of(s0, d).file_path@ == file_path@)));
                    if contains_str(prev.dependencies@, d) {
                        let j = index_of_key(s0, h);
                        crate::assoc::lemma_key_at(s0, j);
                        assert(contains_str(s0[j].1.dependencies@, d));
                        assert(has_key(s0, d));
                        if value_of(s0, d).file_path@ != file_path@ {
                            assert(has_key(s1, d));
                        }
                    }
                }
            }
            assert forall|i: int| first_occurrence(new_symbols@, i) implies {
                let raw = new_symbols@[i];
                let cur = value_of(s3, raw.identity());
                &&& has_key(s3, raw.identity())
                &&& cur.name == raw.name
                &&& cur.node_kind == raw.node_kind
                &&& cur.file_path == raw.file_path
                &&& cur.line_number == raw.line_number
                &&& cur.start_byte == raw.start_byte
                &&& cur.end_byte == raw.end_byte
            } by {
                let raw = new_symbols@[i];
                let p = index_of_key(batch@, raw.identity());
                crate::assoc::lemma_key_at(batch@, p);
                assert(batch@[p].1 == i);
                assert(has_key(s2, raw.identity()));
                assert(has_key(s3, raw.identity()));
                assert(same_core(value_of(s3, raw.identity()), value_of(s2, raw.identity())));
            }
        }
    }

    /// The candidate identities for one raw reference name: the file-local
    /// bindings when the local map knows the name at all, the global bindings
    /// otherwise, and nothing when neither map knows it.
    pub fn resolve_one_dependency(
        &self,
        raw_name: &String,
        local_name_map: &Vec<(String, Vec<String>)>,
        global_name_map: &Vec<(String, Vec<String>)>,
    ) -> (r: Vec<String>)
        requires
            name_map_wf(local_name_map@),
            no_empty_entries(local_name_map@),
            name_map_wf(global_name_map@),
            no_empty_entries(global_name_map@),
        ensures
            forall|c: Seq<char>|
                #[trigger] contains_str(r@, c) == map_candidate(
                    local_name_map@,
                    global_name_map@,
                    raw_name@,
                    c,
                ),
            (r@.len() == 0) == name_unresolvable(local_name_map@, global_name_map@, raw_name@),
            crate::assoc::distinct_strs(r@),
    {
        match crate::name_map::name_map_lookup(local_name_map, raw_name) {
            Some(ids) => {
                proof {
                    let i = index_of_key(local_name_map@, raw_name@);
                    crate::assoc::lemma_key_at(local_name_map@, i);
                }
                ids
            },
            None => {
                match crate::name_map::name_map_lookup(global_name_map, raw_name) {
                    Some(ids) => {
                        proof {
                            let i = index_of_key(global_name_map@, raw_name@);
                            crate::assoc::lemma_key_at(global_name_map@, i);
                        }
                        ids
                    },
                    None => {
                        let empty: Vec<String> = Vec::new();
                        empty
                    },
                }
            },
        }
    }

    /// Translates each installed symbol's raw reference names into identity
    /// edges: every candidate except the symbol itself becomes a dependency
    /// (with the mirror `used_by` edge), and a name with no candidate is
    /// recorded in the unresolved table under the symbol's identity.
    pub fn resolve_new_symbols_dependencies(
        &mut self,
        new_symbols: &Vec<RawSymbol>,
        batch: &Vec<(String, usize)>,
        local_name_map: &Vec<(String, Vec<String>)>,
        global_name_map: &Vec<(String, Vec<String>)>,
    )
        requires
            old(self).wf(),
            name_map_wf(local_name_map@),
            no_empty_entries(local_name_map@),
            name_map_wf(global_name_map@),
            no_empty_entries(global_name_map@),
            unique_keys(batch@),
            forall|p: int|
                0 <= p < batch@.len() ==> {
                    let id = (#[trigger] batch@[p]).0@;
                    &&& batch@[p].1 < new_symbols@.len()
                    &&& new_symbols@[batch@[p].1 as int].identity() == id
                    &&& has_key(old(self).symbol_store.table(), id)
                    &&& value_of(old(self).symbol_store.table(), id).dependencies@.len() == 0
                    &&& !has_key(old(self).dependency_resolver.table(), id)
                },
            forall|n: Seq<char>, c: Seq<char>|
                #[trigger] binds(local_name_map@, n, c) ==> has_key(
                    old(self).symbol_store.table(),
                    c,
                ),
            forall|n: Seq<char>, c: Seq<char>|
                #[trigger] binds(global_name_map@, n, c) ==> has_key(
                    old(self).symbol_store.table(),
                    c,
                ),
        ensures
            final(self).wf(),
            final(self).file_hashes == old(self).file_hashes,
            forall|h: Seq<char>|
                #[trigger] has_key(final(self).symbol_store.table(), h) == has_key(
                    old(self).symbol_store.table(),
                    h,
                ),
            forall|h: Seq<char>|
                #[trigger] has_key(final(self).symbol_store.table(), h) ==> same_core(
                    value_of(final(self).symbol_store.table(), h),
                    value_of(old(self).symbol_store.table(), h),
                ),
            forall|p: int, c: Seq<char>|
                0 <= p < batch@.len() ==> #[trigger] contains_str(
                    value_of(final(self).symbol_store.table(), (#[trigger] batch@[p]).0@)
                        .dependencies@,
                    c,
                ) == (raw_resolves_to(
                    new_symbols@[batch@[p].1 as int],
                    local_name_map@,
                    global_name_map@,
                    c,
                ) && c != batch@[p].0@),
            forall|h: Seq<char>|
                has_key(old(self).symbol_store.table(), h) && !has_key(batch@, h)
                    ==> #[trigger] value_of(final(self).symbol_store.table(), h).dependencies
                    == value_of(old(self).symbol_store.table(), h).dependencies,
            forall|p: int, r: Seq<char>|
                0 <= p < batch@.len() ==> #[trigger] binds(
                    final(self).dependency_resolver.table(),
                    (#[trigger] batch@[p]).0@,
                    r,
                ) == (exists|k: int|
                    0 <= k < new_symbols@[batch@[p].1 as int].dep_names@.len() && (
                    #[trigger] new_symbols@[batch@[p].1 as int].dep_names@[k])@ == r
                        && name_unresolvable(local_name_map@, global_name_map@, r)),
            forall|c: Seq<char>|
                !has_key(batch@, c) ==> #[trigger] has_key(final(self).dependency_resolver.table(), c)
                    == has_key(old(self).dependency_resolver.table(), c) && (has_key(
                    old(self).dependency_resolver.table(),
                    c,
                ) ==> value_of(final(self).dependency_resolver.table(), c) == value_of(
                    old(self).dependency_resolver.table(),
                    c,
                )),
    {
        let ghost store0 = self.symbol_store.table();
        let ghost res0 = self.dependency_resolver.table();
        let nb = batch.len();
        let mut p: usize = 0;
        while p < nb
            invariant
                nb == batch@.len(),
                self.file_hashes == old(self).file_hashes,
                self.file_hashes.wf(),
                self.symbol_store.wf(),
                graph_wf(self.symbol_store.table()),
                self.dependency_resolver.wf(),
                p <= nb,
                store0 == old(self).symbol_store.table(),
                res0 == old(self).dependency_resolver.table(),
                name_map_wf(local_name_map@),
                no_empty_entries(local_name_map@),
                name_map_wf(global_name_map@),
                no_empty_entries(global_name_map@),
                unique_keys(batch@),
                forall|q: int|
                    0 <= q < batch@.len() ==> {
                        let id = (#[trigger] batch@[q]).0@;
                        &&& batch@[q].1 < new_symbols@.len()
                        &&& new_symbols@[batch@[q].1 as int].identity() == id
                        &&& has_key(store0, id)
                        &&& value_of(store0, id).dependencies@.len() == 0
                        &&& !has_key(res0, id)
                    },
                forall|n: Seq<char>, c: Seq<char>|
                    #[trigger] binds(local_name_map@, n, c) ==> has_key(store0, c),
                forall|n: Seq<char>, c: Seq<char>|
                    #[trigger] binds(global_name_map@, n, c) ==> has_key(store0, c),
                forall|h: Seq<char>|
                    #[trigger] has_key(self.symbol_store.table(), h) == has_key(store0, h),
                forall|h: Seq<char>|
                    #[trigger] has_key(self.symbol_store.table(), h) ==> same_core(
                        value_of(self.symbol_store.table(), h),
                        value_of(store0, h),
                    ),
                forall|j: int|
                    0 <= j < self.dependency_resolver.table().len() ==> has_key(
                        self.symbol_store.table(),
                        (#[trigger] self.dependency_resolver.table()[j]).0@,
                    ),
                forall|q: int, c: Seq<char>|
                    0 <= q < p ==> #[trigger] contains_str(
                        value_of(self.symbol_store.table(), (#[trigger] batch@[q]).0@)
                            .dependencies@,
                        c,
                    ) == (raw_resolves_to(
                        new_symbols@[batch@[q].1 as int],
                        local_name_map@,
                        global_name_map@,
                        c,
                    ) && c != batch@[q].0@),
                forall|q: int|
                    p <= q < batch@.len() ==> value_of(
                        self.symbol_store.table(),
                        (#[trigger] batch@[q]).0@,
                    ).dependencies@.len() == 0,
                forall|h: Seq<char>|
                    has_key(store0, h) && !has_key(batch@, h) ==> #[trigger] value_of(
                        self.symbol_store.table(),
                        h,
                    ).dependencies == value_of(store0, h).dependencies,
                forall|q: int, r: Seq<char>|
                    0 <= q < p ==> #[trigger] binds(
                        self.dependency_resolver.table(),
                        (#[trigger] batch@[q]).0@,
                        r,
                    ) == (exists|k: int|
                        0 <= k < new_symbols@[batch@[q].1 as int].dep_names@.len() && (
                        #[trigger] new_symbols@[batch@[q].1 as int].dep_names@[k])@ == r
                            && name_unresolvable(local_name_map@, global_name_map@, r)),
                forall|q: int|
                    p <= q < batch@.len() ==> !has_key(
                        self.dependency_resolver.table(),
                        (#[trigger] batch@[q]).0@,
                    ),
                forall|c: Seq<char>|
                    !has_key(batch@, c) ==> #[trigger] has_key(
                        self.dependency_resolver.table(),
                        c,
                    ) == has_key(res0, c) && (has_key(res0, c) ==> value_of(
                        self.dependency_resolver.table(),
                        c,
                    ) == value_of(res0, c)),
            decreases nb - p,
        {
            let ghost store_pre = self.symbol_store.table();
            let ghost res_pre = self.dependency_resolver.table();
            let id = batch[p].0.clone();
            let ghost idv = id@;
            proof {
                crate::assoc::lemma_key_at(batch@, p as int);
            }
            let idx = batch[p].1;
            let raw = &new_symbols[idx];
            proof {
                assert(has_key(store0, batch@[p as int].0@));
                assert(has_key(self.symbol_store.table(), idv));
                assert(has_key(store_pre, idv));
            }
            let nk = raw.dep_names.len();
            let mut new_deps: Vec<String> = Vec::new();
            let mut k: usize = 0;
            while k < nk
                invariant
                    nk == raw.dep_names@.len(),
                    k <= nk,
                    raw == new_symbols@[batch@[p as int].1 as int],
                    p < batch@.len(),
                    idv == batch@[p as int].0@,
                    id@ == idv,
                    name_map_wf(local_name_map@),
                    no_empty_entries(local_name_map@),
                    name_map_wf(global_name_map@),
                    no_empty_entries(global_name_map@),
                    has_key(store_pre, idv),
                    self.symbol_store.table() == store_pre,
                    self.file_hashes == old(self).file_hashes,
                    self.symbol_store.wf(),
                    graph_wf(self.symbol_store.table()),
                    self.dependency_resolver.wf(),
                    unique_keys(batch@),
                    forall|n: Seq<char>, c: Seq<char>|
                        #[trigger] binds(local_name_map@, n, c) ==> has_key(store_pre, c),
                    forall|n: Seq<char>, c: Seq<char>|
                        #[trigger] binds(global_name_map@, n, c) ==> has_key(store_pre, c),
                    crate::assoc::distinct_strs(new_deps@),
                    !contains_str(new_deps@, idv),
                    forall|c: Seq<char>|
                        #[trigger] contains_str(new_deps@, c) == ((exists|k2: int|
                            0 <= k2 < k && map_candidate(
                                local_name_map@,
                                global_name_map@,
                                (#[trigger] raw.dep_names@[k2])@,
                                c,
                            )) && c != idv),
                    forall|c: Seq<char>|
                        #[trigger] contains_str(new_deps@, c) ==> has_key(store_pre, c),
                    forall|r: Seq<char>|
                        #[trigger] binds(self.dependency_resolver.table(), idv, r) == (exists|
                            k2: int,
                        |
                            0 <= k2 < k && (#[trigger] raw.dep_names@[k2])@ == r
                                && name_unresolvable(local_name_map@, global_name_map@, r)),
                    forall|c: Seq<char>|
                        c != idv ==> #[trigger] has_key(self.dependency_resolver.table(), c)
                            == has_key(res_pre, c) && (has_key(res_pre, c) ==> value_of(
                            self.dependency_resolver.table(),
                            c,
                        ) == value_of(res_pre, c)),
                    forall|j: int|
                        0 <= j < self.dependency_resolver.table().len() ==> has_key(
                            store_pre,
                            (#[trigger] self.dependency_resolver.table()[j]).0@,
                        ),
                decreases nk - k,
            {
                let ghost res_k = self.dependency_resolver.table();
                let cands = self.resolve_one_dependency(
                    &raw.dep_names[k],
                    local_name_map,
                    global_name_map,
                );
                if cands.len() == 0 {
                    self.dependency_resolver.add(id.clone(), raw.dep_names[k].clone());
                    proof {
                        let newr = self.dependency_resolver.table();
                        let lst_new = value_of(newr, idv)@;
                        let lst_old: Seq<String> = if has_key(res_k, idv) {
                            value_of(res_k, idv)@
                        } else {
                            Seq::<String>::empty()
                        };
                        assert(lst_new == lst_old.push(lst_new.last()));
                        assert(lst_new.last()@ == raw.dep_names@[k as int]@);
                        assert forall|r: Seq<char>| #[trigger] binds(newr, idv, r) == (exists|
                            k2: int,
                        |
                            0 <= k2 < k + 1 && (#[trigger] raw.dep_names@[k2])@ == r
                                && name_unresolvable(local_name_map@, global_name_map@, r)) by {
                            assert(has_key(newr, idv));
                            if binds(newr, idv, r) {
                                let i0 = choose|i0: int|
                                    0 <= i0 < lst_new.len() && lst_new[i0]@ == r;
                                if i0 < lst_new.len() - 1 {
                                    assert(lst_old[i0]@ == r);
                                    assert(has_key(res_k, idv) && contains_str(lst_old, r));
                                    assert(binds(res_k, idv, r));
                                    let k2 = choose|k2: int|
                                        0 <= k2 < k && (#[trigger] raw.dep_names@[k2])@ == r
                                            && name_unresolvable(
                                            local_name_map@,
                                            global_name_map@,
                                            r,
                                        );
                                    assert(0 <= k2 < k + 1);
                                } else {
                                    assert(r == raw.dep_names@[k as int]@);
                                    assert(0 <= k < k + 1 && raw.dep_names@[k as int]@ == r
                                        && name_unresolvable(
                                        local_name_map@,
                                        global_name_map@,
                                        r,
                                    ));
                                }
                            }
                            if exists|k2: int|
                                0 <= k2 < k + 1 && (#[trigger] raw.dep_names@[k2])@ == r
                                    && name_unresolvable(local_name_map@, global_name_map@, r) {
                                let k2 = choose|k2: int|
                                    0 <= k2 < k + 1 && (#[trigger] raw.dep_names@[k2])@ == r
                                        && name_unresolvable(local_name_map@, global_name_map@, r);
                                if k2 < k {
                                    assert(binds(res_k, idv, r));
                                    let i0 = choose|i0: int|
                                        0 <= i0 < lst_old.len() && lst_old[i0]@ == r;
                                    assert(lst_new[i0]@ == r);
                                    assert(contains_str(lst_new, r));
                                } else {
                                    assert(r == raw.dep_names@[k as int]@);
                                    assert(lst_new[lst_new.len() - 1]@ == r);
                                    assert(contains_str(lst_new, r));
                                }
                            }
                        }
                        assert forall|j: int|
                            0 <= j < self.dependency_resolver.table().len() implies has_key(
                            store_pre,
                            (#[trigger] self.dependency_resolver.table()[j]).0@,
                        ) by {
                            let c = self.dependency_resolver.table()[j].0@;
                            assert(has_key(self.dependency_resolver.table(), c));
                            if c != idv {
                                assert(has_key(res_k, c));
                                let j0 = index_of_key(res_k, c);
                                assert(res_k[j0].0@ == c);
                            }
                        }
                    }
                } else {
                    let nc = cands.len();
                    let mut ci: usize = 0;
                    while ci < nc
                        invariant
                            nc == cands@.len(),
                            ci <= nc,
                            id@ == idv,
                            crate::assoc::distinct_strs(new_deps@),
                            !contains_str(new_deps@, idv),
                            forall|c: Seq<char>|
                                #[trigger] contains_str(cands@, c) == map_candidate(
                                    local_name_map@,
                                    global_name_map@,
                                    (raw.dep_names@[k as int])@,
                                    c,
                                ),
                            forall|c: Seq<char>|
                                #[trigger] contains_str(new_deps@, c) == (((exists|k2: int|
                                    0 <= k2 < k && map_candidate(
                                        local_name_map@,
                                        global_name_map@,
                                        (#[trigger] raw.dep_names@[k2])@,
                                        c,
                                    )) || (exists|c2: int|
                                    0 <= c2 < ci && (#[trigger] cands@[c2])@ == c)) && c != idv),
                        decreases nc - ci,
                    {
                        let ghost predeps = new_deps@;
                        if !(cands[ci] == id) {
                            crate::assoc::push_if_absent(&mut new_deps, cands[ci].clone());
                        }
                        proof {
                            assert forall|c: Seq<char>| #[trigger] contains_str(new_deps@, c) == ((
                            (exists|k2: int|
                                0 <= k2 < k && map_candidate(
                                    local_name_map@,
                                    global_name_map@,
                                    (#[trigger] raw.dep_names@[k2])@,
                                    c,
                                )) || (exists|c2: int|
                                0 <= c2 < ci + 1 && (#[trigger] cands@[c2])@ == c)) && c
                                != idv) by {
                                if cands@[ci as int]@ != idv {
                                    assert(contains_str(new_deps@, c) == (contains_str(predeps, c)
                                        || c == cands@[ci as int]@));
                                } else {
                                    assert(new_deps@ == predeps);
                                }
                                if exists|c2: int|
                                    0 <= c2 < ci + 1 && (#[trigger] cands@[c2])@ == c {
                                    let c2 = choose|c2: int|
                                        0 <= c2 < ci + 1 && (#[trigger] cands@[c2])@ == c;
                                    if c2 < ci {
                                        assert((exists|c3: int|
                                            0 <= c3 < ci && (#[trigger] cands@[c3])@ == c));
                                    }
                                }
                            }
                        }
                        ci = ci + 1;
                    }
                    proof {
                        assert forall|c: Seq<char>| #[trigger] contains_str(new_deps@, c) == ((
                        exists|k2: int|
                            0 <= k2 < k + 1 && map_candidate(
                                local_name_map@,
                                global_name_map@,
                                (#[trigger] raw.dep_names@[k2])@,
                                c,
                            )) && c != idv) by {
                            if contains_str(new_deps@, c) {
                                if exists|c2: int|
                                    0 <= c2 < cands@.len() && (#[trigger] cands@[c2])@ == c {
                                    assert(contains_str(cands@, c));
                                    assert(0 <= k < k + 1 && map_candidate(
                                        local_name_map@,
                                        global_name_map@,
                                        raw.dep_names@[k as int]@,
                                        c,
                                    ));
                                }
                            }
                            if (exists|k2: int|
                                0 <= k2 < k + 1 && map_candidate(
                                    local_name_map@,
                                    global_name_map@,
                                    (#[trigger] raw.dep_names@[k2])@,
                                    c,
                                )) && c != idv {
                                let k2 = choose|k2: int|
                                    0 <= k2 < k + 1 && map_candidate(
                                        local_name_map@,
                                        global_name_map@,
                                        (#[trigger] raw.dep_names@[k2])@,
                                        c,
                                    );
                                if k2 == k {
                                    assert(contains_str(cands@, c));
                                    let c2 = choose|c2: int|
                                        0 <= c2 < cands@.len() && (#[trigger] cands@[c2])@ == c;
                                    assert(contains_str(new_deps@, c));
                                }
                            }
                        }
                        assert forall|c: Seq<char>|
                            #[trigger] contains_str(new_deps@, c) implies has_key(
                            store_pre,
                            c,
                        ) by {
                            assert(contains_str(cands@, c) || (exists|k2: int|
                                0 <= k2 < k && map_candidate(
                                    local_name_map@,
                                    global_name_map@,
                                    (#[trigger] raw.dep_names@[k2])@,
                                    c,
                                )));
                        }
                    }
                }
                k = k + 1;
            }
            // Install both sides of the new edges at once.
            proof {
                assert(has_key(store_pre, idv)) by {
                    assert(has_key(store_pre, batch@[p as int].0@));
                }
            }
            self.symbol_store.link_dependencies(&id, &new_deps);
            proof {
                let store_post = self.symbol_store.table();
                assert(value_of(store_pre, idv).dependencies@.len() == 0);
                assert forall|q: int, c: Seq<char>|
                    0 <= q < p + 1 implies #[trigger] contains_str(
                    value_of(store_post, (#[trigger] batch@[q]).0@).dependencies@,
                    c,
                ) == (raw_resolves_to(
                    new_symbols@[batch@[q].1 as int],
                    local_name_map@,
                    global_name_map@,
                    c,
                ) && c != batch@[q].0@) by {
                    let qid = batch@[q].0@;
                    if q == p {
                        assert(contains_str(value_of(store_post, idv).dependencies@, c) == (
                        contains_str(value_of(store_pre, idv).dependencies@, c) || contains_str(
                            new_deps@,
                            c,
                        )));
                        assert(contains_str(value_of(store_pre, idv).dependencies@, c) == false);
                    } else {
                        assert(qid != idv) by {
                            crate::assoc::lemma_key_at(batch@, q);
                            if qid == idv {
                                assert(index_of_key(batch@, qid) == q);
                                assert(index_of_key(batch@, batch@[p as int].0@) == p as int);
                            }
                        }
                        assert(has_key(store_pre, qid));
                        assert(value_of(store_post, qid).dependencies == value_of(
                            store_pre,
                            qid,
                        ).dependencies);
                    }
                }
                assert forall|q: int|
                    p + 1 <= q < batch@.len() implies value_of(
                    store_post,
                    (#[trigger] batch@[q]).0@,
                ).dependencies@.len() == 0 by {
                    let qid = batch@[q].0@;
                    assert(qid != idv) by {
                        crate::assoc::lemma_key_at(batch@, q);
                        if qid == idv {
                            assert(index_of_key(batch@, qid) == q);
                            assert(index_of_key(batch@, batch@[p as int].0@) == p as int);
                        }
                    }
                    assert(has_key(store_pre, qid));
                    assert(value_of(store_post, qid).dependencies == value_of(
                        store_pre,
                        qid,
                    ).dependencies);
                }
                assert forall|h: Seq<char>|
                    has_key(store0, h) && !has_key(batch@, h) implies #[trigger] value_of(
                    store_post,
                    h,
                ).dependencies == value_of(store0, h).dependencies by {
                    assert(h != idv) by {
                        if h == idv {
                            assert(has_key(batch@, batch@[p as int].0@)) by {
                                crate::assoc::lemma_key_at(batch@, p as int);
                            }
                        }
                    }
                    assert(has_key(store_pre, h));
                    assert(value_of(store_post, h).dependencies == value_of(
                        store_pre,
                        h,
                    ).dependencies);
                }
                assert forall|h: Seq<char>|
                    #[trigger] has_key(store_post, h) implies same_core(
                    value_of(store_post, h),
                    value_of(store0, h),
                ) by {
                    if h == idv {
                        assert(same_core(value_of(store_post, idv), value_of(store_pre, idv)));
                    } else {
                        assert(has_key(store_pre, h));
                        assert(same_core(value_of(store_post, h), value_of(store_pre, h)));
                    }
                }
                assert forall|q: int, r: Seq<char>|
                    0 <= q < p + 1 implies #[trigger] binds(
                    self.dependency_resolver.table(),
                    (#[trigger] batch@[q]).0@,
                    r,
                ) == (exists|k2: int|
                    0 <= k2 < new_symbols@[batch@[q].1 as int].dep_names@.len() && (
                    #[trigger] new_symbols@[batch@[q].1 as int].dep_names@[k2])@ == r
                        && name_unresolvable(local_name_map@, global_name_map@, r)) by {
                    let qid = batch@[q].0@;
                    if q < p {
                        assert(qid != idv) by {
                            crate::assoc::lemma_key_at(batch@, q);
                            if qid == idv {
                                assert(index_of_key(batch@, qid) == q);
                                assert(index_of_key(batch@, batch@[p as int].0@) == p as int);
                            }
                        }
                        assert(has_key(self.dependency_resolver.table(), qid) == has_key(
                            res_pre,
                            qid,
                        ));
                        if has_key(res_pre, qid) {
                            assert(value_of(self.dependency_resolver.table(), qid) == value_of(
                                res_pre,
                                qid,
                            ));
                        }
                        assert(binds(self.dependency_resolver.table(), qid, r) == binds(
                            res_pre,
                            qid,
                            r,
                        ));
                    } else {
                        assert(qid == idv);
                        assert(new_symbols@[batch@[q].1 as int] == raw);
                        assert(binds(self.dependency_resolver.table(), idv, r) == (exists|k2: int|
                            0 <= k2 < raw.dep_names@.len() && (#[trigger] raw.dep_names@[k2])@ == r
                                && name_unresolvable(local_name_map@, global_name_map@, r)));
                    }
                }
                assert forall|q: int|
                    p + 1 <= q < batch@.len() implies !has_key(
                    self.dependency_resolver.table(),
                    (#[trigger] batch@[q]).0@,
                ) by {
                    let qid = batch@[q].0@;
                    assert(qid != idv) by {
                        crate::assoc::lemma_key_at(batch@, q);
                        if qid == idv {
                            assert(index_of_key(batch@, qid) == q);
                            assert(index_of_key(batch@, batch@[p as int].0@) == p as int);
                        }
                    }
                    assert(has_key(self.dependency_resolver.table(), qid) == has_key(
                        res_pre,
                        qid,
                    ));
                }
                assert forall|j: int|
                    0 <= j < self.dependency_resolver.table().len() implies has_key(
                    self.symbol_store.table(),
                    (#[trigger] self.dependency_resolver.table()[j]).0@,
                ) by {
                    let c = self.dependency_resolver.table()[j].0@;
                    assert(has_key(self.dependency_resolver.table(), c));
                    if c != idv {
                        assert(has_key(res_pre, c));
                        let j0 = index_of_key(res_pre, c);
                        assert(res_pre[j0].0@ == c);
                        assert(has_key(store_pre, c));
                    } else {
                        assert(has_key(store_pre, idv));
                    }
                }
            }
            p = p + 1;
        }
    }

    /// What one successful `index_extracted` run guarantees, read as a
    /// relation between the index before (`pre`) and after (`post`): the
    /// fingerprint is recorded, the file's old symbols are evicted, the
    /// extracted ones stand with their resolved dependencies, and names with
    /// no candidate sit in the unresolved table.
    pub open spec fn indexed_from(
        pre: Indexer,
        post: Indexer,
        path: Seq<char>,
        fp: Seq<char>,
        raws: Seq<RawSymbol>,
    ) -> bool {
        &&& crate::file_hashes::spec_upserted(
            pre.file_hashes.table(),
            post.file_hashes.table(),
            path,
            fp,
        )
        &&& forall|h: Seq<char>|
            #[trigger] has_key(post.symbol_store.table(), h) == ((has_key(
                pre.symbol_store.table(),
                h,
            ) && value_of(pre.symbol_store.table(), h).file_path@ != path) || is_new_id(raws, h))
        &&& forall|i: int|
            first_occurrence(raws, i) ==> {
                let raw = raws[i];
                let cur = value_of(post.symbol_store.table(), raw.identity());
                &&& has_key(post.symbol_store.table(), raw.identity())
                &&& cur.name == raw.name
                &&& cur.node_kind == raw.node_kind
                &&& cur.file_path == raw.file_path
                &&& cur.line_number == raw.line_number
                &&& cur.start_byte == raw.start_byte
                &&& cur.end_byte == raw.end_byte
            }
        &&& forall|i: int, c: Seq<char>|
            first_occurrence(raws, i) ==> #[trigger] contains_str(
                value_of(post.symbol_store.table(), (#[trigger] raws[i]).identity())
                    .dependencies@,
                c,
            ) == (resolves_to(raws[i], raws, post.symbol_store.table(), c) && c
                != raws[i].identity())
        &&& forall|i: int, r: Seq<char>|
            first_occurrence(raws, i) ==> #[trigger] binds(
                post.dependency_resolver.table(),
                (#[trigger] raws[i]).identity(),
                r,
            ) == ((exists|k: int|
                0 <= k < raws[i].dep_names@.len() && (#[trigger] raws[i].dep_names@[k])@ == r)
                && !local_has_name(raws, r) && !has_name(post.symbol_store.table(), r))
        &&& forall|h: Seq<char>|
            #[trigger] has_key(pre.symbol_store.table(), h) && value_of(
                pre.symbol_store.table(),
                h,
            ).file_path@ != path && !is_new_id(raws, h) ==> {
                let prev = value_of(pre.symbol_store.table(), h);
                let cur = value_of(post.symbol_store.table(), h);
                &&& same_core(cur, prev)
                &&& forall|d: Seq<char>|
                    #[trigger] contains_str(cur.dependencies@, d) == (contains_str(
                        prev.dependencies@,
                        d,
                    ) && !(value_of(pre.symbol_store.table(), d).file_path@ == path || is_new_id(
                        raws,
                        d,
                    )))
            }
        &&& forall|i: int| 0 <= i < raws.len() ==> (#[trigger] raws[i]).file_path@ == path
    }

    /// Indexes one source file from its bytes: computes the content
    /// fingerprint, skips the file when the recorded fingerprint matches
    /// (nothing at all changes then), and otherwise parses the bytes,
    /// extracts the symbols, and runs `index_extracted`. A parse or decode
    /// failure leaves the index untouched and is reported, so the file is
    /// retried on the next run.
    pub fn index_file(&mut self, file_path: &String, bytes: &Vec<u8>) -> (r: Result<
        (),
        crate::errors::ContextMeshError,
    >)
        requires
            old(self).wf(),
        ensures
            final(self).wf(),
            !crate::file_hashes::spec_has_changed(
                old(self).file_hashes.table(),
                file_path@,
                crate::digest::fingerprint_of(bytes@),
            ) ==> (*final(self) == *old(self) && r is Ok),
            r is Err ==> *final(self) == *old(self),
            (crate::file_hashes::spec_has_changed(
                old(self).file_hashes.table(),
                file_path@,
                crate::digest::fingerprint_of(bytes@),
            ) && r is Ok) ==> exists|raws: Seq<RawSymbol>|
                Indexer::indexed_from(
                    *old(self),
                    *final(self),
                    file_path@,
                    crate::digest::fingerprint_of(bytes@),
                    raws,
                ),
    {
        let new_hash = crate::digest::content_fingerprint(bytes.as_slice());
        if !self.file_hashes.has_changed(file_path, &new_hash) {
            return Ok(());
        }
        let tree = match crate::syntax::parse_rust_source(bytes) {
            Ok(t) => t,
            Err(e) => {
                return Err(e);
            },
        };
        let adapter = crate::rust_indexer::RustIndexer;
        let new_symbols = crate::extract::extract_symbols(&adapter, &tree, file_path);
        proof {
            assert forall|i: int|
                0 <= i < new_symbols@.len() implies (#[trigger] new_symbols@[i]).file_path@
                == file_path@ by {
                assert(crate::extract::raw_matches_def(
                    tree,
                    file_path@,
                    crate::extract::def_nodes_upto(tree, tree.nodes@.len() as int)[i],
                    new_symbols@[i],
                ));
            }
        }
        self.index_extracted(file_path, &new_hash, &new_symbols);
        proof {
            assert(Indexer::indexed_from(
                *old(self),
                *self,
                file_path@,
                crate::digest::fingerprint_of(bytes@),
                new_symbols@,
            ));
        }
        Ok(())
    }

    /// Replays the whole unresolved table against the current name map: a
    /// recorded raw name that some stored symbol now carries becomes a
    /// dependency edge (both sides installed); names that still resolve to
    /// nothing stay in the table. One call repairs every forward reference
    /// whose definition has been indexed since.
    pub fn recheck_unresolved(&mut self)
        requires
            old(self).wf(),
        ensures
            final(self).wf(),
            final(self).file_hashes == old(self).file_hashes,
            forall|h: Seq<char>|
                #[trigger] has_key(final(self).symbol_store.table(), h) == has_key(
                    old(self).symbol_store.table(),
                    h,
                ),
            forall|h: Seq<char>|
                #[trigger] has_key(final(self).symbol_store.table(), h) ==> same_core(
                    value_of(final(self).symbol_store.table(), h),
                    value_of(old(self).symbol_store.table(), h),
                ),
            forall|c: Seq<char>, d: Seq<char>|
                has_key(old(self).symbol_store.table(), c) ==> #[trigger] contains_str(
                    value_of(final(self).symbol_store.table(), c).dependencies@,
                    d,
                ) == (contains_str(value_of(old(self).symbol_store.table(), c).dependencies@, d)
                    || (requeued_edge(
                    old(self).dependency_resolver.table(),
                    old(self).symbol_store.table(),
                    c,
                    d,
                ) && d != c)),
            forall|c: Seq<char>, r: Seq<char>|
                #[trigger] binds(final(self).dependency_resolver.table(), c, r) == (binds(
                    old(self).dependency_resolver.table(),
                    c,
                    r,
                ) && !has_name(old(self).symbol_store.table(), r)),
    {
        let ghost store0 = self.symbol_store.table();
        let ghost res0 = self.dependency_resolver.table();
        let drained = self.dependency_resolver.collect_drained();
        let global = self.symbol_store.build_name_map();
        proof {
            assert forall|n: Seq<char>| #[trigger] has_key(global@, n) == has_name(store0, n) by {
                if has_key(global@, n) {
                    crate::name_map::lemma_has_key_binds(global@, n);
                    let c0 = value_of(global@, n)@[0]@;
                    assert(binds(global@, n, c0));
                    assert(has_key(store0, c0) && value_of(store0, c0).name@ == n);
                    let j = index_of_key(store0, c0);
                    assert(store0[j].0@ == c0);
                    crate::assoc::lemma_key_at(store0, j);
                    assert(store0[j].1.name@ == n);
                }
                if has_name(store0, n) {
                    let j = choose|j: int|
                        0 <= j < store0.len() && (#[trigger] store0[j]).1.name@ == n;
                    crate::assoc::lemma_key_at(store0, j);
                    assert(binds(global@, n, store0[j].0@));
                }
            }
            assert forall|e2: int|
                0 <= e2 < drained@.len() implies has_key(
                store0,
                (#[trigger] drained@[e2]).0@,
            ) by {
                assert(res0[e2] == drained@[e2]);
            }
        }
        let mut still: Vec<(String, Vec<String>)> = Vec::new();
        let nd = drained.len();
        let mut e: usize = 0;
        while e < nd
            invariant
                nd == drained@.len(),
                e <= nd,
                drained@ == res0,
                res0 == old(self).dependency_resolver.table(),
                store0 == old(self).symbol_store.table(),
                unique_keys(res0),
                self.file_hashes == old(self).file_hashes,
                self.file_hashes.wf(),
                self.symbol_store.wf(),
                graph_wf(self.symbol_store.table()),
                self.dependency_resolver.wf(),
                self.dependency_resolver.table().len() == 0,
                name_map_wf(global@),
                no_empty_entries(global@),
                forall|n: Seq<char>, c: Seq<char>|
                    #[trigger] binds(global@, n, c) == stored_candidate(store0, n, c),
                forall|n: Seq<char>| #[trigger] has_key(global@, n) == has_name(store0, n),
                forall|e2: int| 0 <= e2 < nd ==> has_key(store0, (#[trigger] drained@[e2]).0@),
                forall|h: Seq<char>|
                    #[trigger] has_key(self.symbol_store.table(), h) == has_key(store0, h),
                forall|h: Seq<char>|
                    #[trigger] has_key(self.symbol_store.table(), h) ==> same_core(
                        value_of(self.symbol_store.table(), h),
                        value_of(store0, h),
                    ),
                forall|c: Seq<char>, d: Seq<char>|
                    has_key(store0, c) ==> #[trigger] contains_str(
                        value_of(self.symbol_store.table(), c).dependencies@,
                        d,
                    ) == (contains_str(value_of(store0, c).dependencies@, d) || (exists|e2: int|
                        0 <= e2 < e && (#[trigger] drained@[e2]).0@ == c && (exists|ri: int|
                            0 <= ri < drained@[e2].1@.len() && stored_candidate(
                                store0,
                                (#[trigger] drained@[e2].1@[ri])@,
                                d,
                            )) && d != c)),
                unique_keys(still@),
                forall|k: int|
                    0 <= k < still@.len() ==> has_key(res0, (#[trigger] still@[k]).0@)
                        && index_of_key(res0, still@[k].0@) < e && has_key(store0, still@[k].0@),
                forall|c: Seq<char>, r: Seq<char>|
                    #[trigger] binds(still@, c, r) == (exists|e2: int|
                        0 <= e2 < e && (#[trigger] drained@[e2]).0@ == c && contains_str(
                            drained@[e2].1@,
                            r,
                        ) && !has_name(store0, r)),
            decreases nd - e,
        {
            let ghost store_pre = self.symbol_store.table();
            let caller = drained[e].0.clone();
            let ghost cv = caller@;
            proof {
                assert(has_key(store0, drained@[e as int].0@));
                assert(has_key(self.symbol_store.table(), cv));
            }
            match find_key(self.symbol_store.get_symbols(), &caller) {
                Some(_) => {},
                None => {
                    proof {
                        assert(false);
                    }
                },
            }
            let names = &drained[e].1;
            let nn = names.len();
            let mut new_deps: Vec<String> = Vec::new();
            let mut leftover: Vec<String> = Vec::new();
            let mut k: usize = 0;
            while k < nn
                invariant
                    nn == names@.len(),
                    k <= nn,
                    names == drained@[e as int].1,
                    e < drained@.len(),
                    cv == drained@[e as int].0@,
                    caller@ == cv,
                    name_map_wf(global@),
                    no_empty_entries(global@),
                    forall|n: Seq<char>, c: Seq<char>|
                        #[trigger] binds(global@, n, c) == stored_candidate(store0, n, c),
                    forall|n: Seq<char>| #[trigger] has_key(global@, n) == has_name(store0, n),
                    crate::assoc::distinct_strs(new_deps@),
                    !contains_str(new_deps@, cv),
                    forall|c: Seq<char>|
                        #[trigger] contains_str(new_deps@, c) == ((exists|ri: int|
                            0 <= ri < k && stored_candidate(
                                store0,
                                (#[trigger] names@[ri])@,
                                c,
                            )) && c != cv),
                    forall|c: Seq<char>|
                        #[trigger] contains_str(new_deps@, c) ==> has_key(store0, c),
                    forall|r: Seq<char>|
                        #[trigger] contains_str(leftover@, r) == (exists|ri: int|
                            0 <= ri < k && (#[trigger] names@[ri])@ == r && !has_name(store0, r)),
                decreases nn - k,
            {
                let ghost preleft = leftover@;
                match crate::name_map::name_map_lookup(&global, &names[k]) {
                    Some(ids) => {
                        let nc = ids.len();
                        let mut ci: usize = 0;
                        while ci < nc
                            invariant
                                nc == ids@.len(),
                                ci <= nc,
                                caller@ == cv,
                                crate::assoc::distinct_strs(new_deps@),
                                !contains_str(new_deps@, cv),
                                forall|c: Seq<char>|
                                    #[trigger] contains_str(ids@, c) == binds(
                                        global@,
                                        (names@[k as int])@,
                                        c,
                                    ),
                                forall|n: Seq<char>, c: Seq<char>|
                                    #[trigger] binds(global@, n, c) == stored_candidate(
                                        store0,
                                        n,
                                        c,
                                    ),
                                forall|c: Seq<char>|
                                    #[trigger] contains_str(new_deps@, c) == (((exists|ri: int|
                                        0 <= ri < k && stored_candidate(
                                            store0,
                                            (#[trigger] names@[ri])@,
                                            c,
                                        )) || (exists|c2: int|
                                        0 <= c2 < ci && (#[trigger] ids@[c2])@ == c)) && c != cv),
                                forall|c: Seq<char>|
                                    #[trigger] contains_str(new_deps@, c) ==> has_key(store0, c),
                            decreases nc - ci,
                        {
                            let ghost predeps = new_deps@;
                            if !(ids[ci] == caller) {
                                crate::assoc::push_if_absent(&mut new_deps, ids[ci].clone());
                            }
                            proof {
                                assert(contains_str(ids@, ids@[ci as int]@)) by {
                                    assert(ids@[ci as int]@ == ids@[ci as int]@);
                                }
                                assert forall|c: Seq<char>| #[trigger] contains_str(new_deps@, c)
                                    == (((exists|ri: int|
                                    0 <= ri < k && stored_candidate(
                                        store0,
                                        (#[trigger] names@[ri])@,
                                        c,
                                    )) || (exists|c2: int|
                                    0 <= c2 < ci + 1 && (#[trigger] ids@[c2])@ == c)) && c
                                    != cv) by {
                                    if ids@[ci as int]@ != cv {
                                        assert(contains_str(new_deps@, c) == (contains_str(
                                            predeps,
                                            c,
                                        ) || c == ids@[ci as int]@));
                                    } else {
                                        assert(new_deps@ == predeps);
                                    }
                                    if exists|c2: int|
                                        0 <= c2 < ci + 1 && (#[trigger] ids@[c2])@ == c {
                                        let c2 = choose|c2: int|
                                            0 <= c2 < ci + 1 && (#[trigger] ids@[c2])@ == c;
                                        if c2 < ci {
                                            assert((exists|c3: int|
                                                0 <= c3 < ci && (#[trigger] ids@[c3])@ == c));
                                        }
                                    }
                                }
                            }
                            ci = ci + 1;
                        }
                        proof {
                            assert forall|c: Seq<char>| #[trigger] contains_str(new_deps@, c) == ((
                            exists|ri: int|
                                0 <= ri < k + 1 && stored_candidate(
                                    store0,
                                    (#[trigger] names@[ri])@,
                                    c,
                                )) && c != cv) by {
                                if contains_str(new_deps@, c) {
                                    if exists|c2: int|
                                        0 <= c2 < ids@.len() && (#[trigger] ids@[c2])@ == c {
                                        assert(contains_str(ids@, c));
                                        assert(stored_candidate(store0, names@[k as int]@, c));
                                        assert(0 <= k < k + 1 && stored_candidate(
                                            store0,
                                            names@[k as int]@,
                                            c,
                                        ));
                                    }
                                }
                                if (exists|ri: int|
                                    0 <= ri < k + 1 && stored_candidate(
                                        store0,
                                        (#[trigger] names@[ri])@,
                                        c,
                                    )) && c != cv {
                                    let ri = choose|ri: int|
                                        0 <= ri < k + 1 && stored_candidate(
                                            store0,
                                            (#[trigger] names@[ri])@,
                                            c,
                                        );
                                    if ri == k {
                                        assert(binds(global@, names@[k as int]@, c));
                                        assert(contains_str(ids@, c));
                                        let c2 = choose|c2: int|
                                            0 <= c2 < ids@.len() && (#[trigger] ids@[c2])@ == c;
                                        assert(contains_str(new_deps@, c));
                                    }
                                }
                            }
                            assert forall|r: Seq<char>| #[trigger] contains_str(leftover@, r) == (
                            exists|ri: int|
                                0 <= ri < k + 1 && (#[trigger] names@[ri])@ == r && !has_name(
                                    store0,
                                    r,
                                )) by {
                                if exists|ri: int|
                                    0 <= ri < k + 1 && (#[trigger] names@[ri])@ == r && !has_name(
                                        store0,
                                        r,
                                    ) {
                                    let ri = choose|ri: int|
                                        0 <= ri < k + 1 && (#[trigger] names@[ri])@ == r
                                            && !has_name(store0, r);
                                    if ri == k {
                                        assert(has_key(global@, names@[k as int]@));
                                        assert(has_name(store0, r));
                                        assert(false);
                                    }
                                }
                            }
                        }
                    },
                    None => {
                        leftover.push(names[k].clone());
                        proof {
                            assert(!has_name(store0, names@[k as int]@));
                            assert forall|r: Seq<char>| #[trigger] contains_str(leftover@, r) == (
                            exists|ri: int|
                                0 <= ri < k + 1 && (#[trigger] names@[ri])@ == r && !has_name(
                                    store0,
                                    r,
                                )) by {
                                if contains_str(leftover@, r) {
                                    let x = choose|x: int|
                                        0 <= x < leftover@.len() && leftover@[x]@ == r;
                                    if x < preleft.len() {
                                        assert(contains_str(preleft, r));
                                    } else {
                                        assert(r == names@[k as int]@);
                                        assert(0 <= k < k + 1 && names@[k as int]@ == r
                                            && !has_name(store0, r));
                                    }
                                }
                                if exists|ri: int|
                                    0 <= ri < k + 1 && (#[trigger] names@[ri])@ == r && !has_name(
                                        store0,
                                        r,
                                    ) {
                                    let ri = choose|ri: int|
                                        0 <= ri < k + 1 && (#[trigger] names@[ri])@ == r
                                            && !has_name(store0, r);
                                    if ri < k {
                                        assert(contains_str(preleft, r));
                                        let x = choose|x: int|
                                            0 <= x < preleft.len() && preleft[x]@ == r;
                                        assert(leftover@[x]@ == r);
                                    } else {
                                        assert(leftover@[leftover@.len() - 1]@ == r);
                                    }
                                }
                            }
                        }
                    },
                }
                k = k + 1;
            }
            proof {
                assert(has_key(store_pre, cv)) by {
                    assert(has_key(self.symbol_store.table(), cv));
                }
                assert forall|c: Seq<char>| #[trigger] contains_str(new_deps@, c) implies has_key(
                    store_pre,
                    c,
                ) by {
                    assert(has_key(store0, c));
                    assert(has_key(self.symbol_store.table(), c));
                }
            }
            self.symbol_store.link_dependencies(&caller, &new_deps);
            let ghost oldstill = still@;
            if leftover.len() > 0 {
                proof {
                    crate::assoc::lemma_key_at(res0, e as int);
                    if has_key(oldstill, cv) {
                        let x = index_of_key(oldstill, cv);
                        assert(index_of_key(res0, oldstill[x].0@) < e);
                        assert(false);
                    }
                }
                still.push((caller, leftover));
                proof {
                    assert forall|c: Seq<char>, r: Seq<char>| #[trigger] binds(still@, c, r) == (
                    exists|e2: int|
                        0 <= e2 < e + 1 && (#[trigger] drained@[e2]).0@ == c && contains_str(
                            drained@[e2].1@,
                            r,
                        ) && !has_name(store0, r)) by {
                        if c == cv {
                            crate::assoc::lemma_key_at(still@, still@.len() - 1);
                            assert(value_of(still@, cv) == still@[still@.len() - 1].1);
                            if binds(still@, c, r) {
                                assert(0 <= e < e + 1 && drained@[e as int].0@ == c
                                    && contains_str(drained@[e as int].1@, r) && !has_name(
                                    store0,
                                    r,
                                ));
                            }
                            if exists|e2: int|
                                0 <= e2 < e + 1 && (#[trigger] drained@[e2]).0@ == c
                                    && contains_str(drained@[e2].1@, r) && !has_name(store0, r) {
                                let e2 = choose|e2: int|
                                    0 <= e2 < e + 1 && (#[trigger] drained@[e2]).0@ == c
                                        && contains_str(drained@[e2].1@, r) && !has_name(
                                        store0,
                                        r,
                                    );
                                if e2 < e {
                                    crate::assoc::lemma_key_at(res0, e2);
                                    assert(index_of_key(res0, cv) == e2);
                                    assert(index_of_key(res0, drained@[e as int].0@) == e as int);
                                    assert(false);
                                }
                                assert(contains_str(still@[still@.len() - 1].1@, r));
                            }
                        } else {
                            assert(binds(still@, c, r) == binds(oldstill, c, r)) by {
                                if has_key(oldstill, c) {
                                    let x = index_of_key(oldstill, c);
                                    assert(still@[x].0@ == c);
                                    crate::assoc::lemma_key_at(still@, x);
                                }
                                if has_key(still@, c) {
                                    let x = index_of_key(still@, c);
                                    assert(x < oldstill.len());
                                    assert(oldstill[x].0@ == c);
                                    crate::assoc::lemma_key_at(oldstill, x);
                                }
                            }
                        }
                    }
                }
            } else {
                proof {
                    assert forall|c: Seq<char>, r: Seq<char>| #[trigger] binds(still@, c, r) == (
                    exists|e2: int|
                        0 <= e2 < e + 1 && (#[trigger] drained@[e2]).0@ == c && contains_str(
                            drained@[e2].1@,
                            r,
                        ) && !has_name(store0, r)) by {
                        if exists|e2: int|
                            0 <= e2 < e + 1 && (#[trigger] drained@[e2]).0@ == c && contains_str(
                                drained@[e2].1@,
                                r,
                            ) && !has_name(store0, r) {
                            let e2 = choose|e2: int|
                                0 <= e2 < e + 1 && (#[trigger] drained@[e2]).0@ == c
                                    && contains_str(drained@[e2].1@, r) && !has_name(store0, r);
                            if e2 == e {
                                assert(contains_str(leftover@, r));
                                assert(leftover@.len() > 0);
                                assert(false);
                            }
                        }
                    }
                }
            }
            proof {
                let store_post = self.symbol_store.table();
                assert forall|c: Seq<char>, d: Seq<char>|
                    has_key(store0, c) implies #[trigger] contains_str(
                    value_of(store_post, c).dependencies@,
                    d,
                ) == (contains_str(value_of(store0, c).dependencies@, d) || (exists|e2: int|
                    0 <= e2 < e + 1 && (#[trigger] drained@[e2]).0@ == c && (exists|ri: int|
                        0 <= ri < drained@[e2].1@.len() && stored_candidate(
                            store0,
                            (#[trigger] drained@[e2].1@[ri])@,
                            d,
                        )) && d != c)) by {
                    if c == cv {
                        assert(contains_str(value_of(store_post, cv).dependencies@, d) == (
                        contains_str(value_of(store_pre, cv).dependencies@, d) || contains_str(
                            new_deps@,
                            d,
                        )));
                        if exists|e2: int|
                            0 <= e2 < e + 1 && (#[trigger] drained@[e2]).0@ == c && (exists|
                                ri: int,
                            |
                                0 <= ri < drained@[e2].1@.len() && stored_candidate(
                                    store0,
                                    (#[trigger] drained@[e2].1@[ri])@,
                                    d,
                                )) && d != c {
                            let e2 = choose|e2: int|
                                0 <= e2 < e + 1 && (#[trigger] drained@[e2]).0@ == c && (exists|
                                    ri: int,
                                |
                                    0 <= ri < drained@[e2].1@.len() && stored_candidate(
                                        store0,
                                        (#[trigger] drained@[e2].1@[ri])@,
                                        d,
                                    )) && d != c;
                            if e2 < e {
                                crate::assoc::lemma_key_at(res0, e2);
                                crate::assoc::lemma_key_at(res0, e as int);
                                assert(false);
                            }
                        }
                        if contains_str(new_deps@, d) {
                            assert((exists|ri: int|
                                0 <= ri < names@.len() && stored_candidate(
                                    store0,
                                    (#[trigger] names@[ri])@,
                                    d,
                                )) && d != cv);
                        }
                    } else {
                        assert(value_of(store_post, c).dependencies == value_of(
                            store_pre,
                            c,
                        ).dependencies) by {
                            assert(has_key(store_pre, c));
                        }
                    }
                }
                assert forall|h: Seq<char>|
                    #[trigger] has_key(store_post, h) implies same_core(
                    value_of(store_post, h),
                    value_of(store0, h),
                ) by {
                    assert(has_key(store_pre, h));
                    if h == cv {
                        assert(same_core(value_of(store_post, cv), value_of(store_pre, cv)));
                    } else {
                        assert(same_core(value_of(store_post, h), value_of(store_pre, h)));
                    }
                }
            }
            e = e + 1;
        }
        self.dependency_resolver.replace_unresolved(still);
        proof {
            assert forall|c: Seq<char>, r: Seq<char>| #[trigger] binds(
                self.dependency_resolver.table(),
                c,
                r,
            ) == (binds(res0, c, r) && !has_name(store0, r)) by {
                if binds(res0, c, r) {
                    let e2 = index_of_key(res0, c);
                    assert(drained@[e2].0@ == c && contains_str(drained@[e2].1@, r));
                }
                if binds(self.dependency_resolver.table(), c, r) {
                    let e2 = choose|e2: int|
                        0 <= e2 < nd && (#[trigger] drained@[e2]).0@ == c && contains_str(
                            drained@[e2].1@,
                            r,
                        ) && !has_name(store0, r);
                    crate::assoc::lemma_key_at(res0, e2);
                    assert(binds(res0, c, r));
                }
            }
            assert forall|j: int|
                0 <= j < self.dependency_resolver.table().len() implies has_key(
                self.symbol_store.table(),
                (#[trigger] self.dependency_resolver.table()[j]).0@,
            ) by {
                assert(has_key(store0, self.dependency_resolver.table()[j].0@));
            }
            assert forall|c: Seq<char>, d: Seq<char>|
                has_key(store0, c) implies #[trigger] contains_str(
                value_of(self.symbol_store.table(), c).dependencies@,
                d,
            ) == (contains_str(value_of(store0, c).dependencies@, d) || (requeued_edge(
                res0,
                store0,
                c,
                d,
            ) && d != c)) by {
                assert(contains_str(value_of(self.symbol_store.table(), c).dependencies@, d) == (
                contains_str(value_of(store0, c).dependencies@, d) || (exists|e2: int|
                    0 <= e2 < nd && (#[trigger] drained@[e2]).0@ == c && (exists|ri: int|
                        0 <= ri < drained@[e2].1@.len() && stored_candidate(
                            store0,
                            (#[trigger] drained@[e2].1@[ri])@,
                            d,
                        )) && d != c)));
                if requeued_edge(res0, store0, c, d) && d != c {
                    let r = choose|r: Seq<char>|
                        #[trigger] binds(res0, c, r) && stored_candidate(store0, r, d);
                    let e2 = index_of_key(res0, c);
                    crate::assoc::lemma_key_at(res0, e2);
                    assert(drained@[e2].0@ == c);
                    assert(contains_str(drained@[e2].1@, r));
                    let ri = choose|ri: int|
                        0 <= ri < drained@[e2].1@.len() && (drained@[e2].1@[ri])@ == r;
                    assert(stored_candidate(store0, (drained@[e2].1@[ri])@, d));
                }
                if exists|e2: int|
                    0 <= e2 < nd && (#[trigger] drained@[e2]).0@ == c && (exists|ri: int|
                        0 <= ri < drained@[e2].1@.len() && stored_candidate(
                            store0,
                            (#[trigger] drained@[e2].1@[ri])@,
                            d,
                        )) && d != c {
                    let e2 = choose|e2: int|
                        0 <= e2 < nd && (#[trigger] drained@[e2]).0@ == c && (exists|ri: int|
                            0 <= ri < drained@[e2].1@.len() && stored_candidate(
                                store0,
                                (#[trigger] drained@[e2].1@[ri])@,
                                d,
                            )) && d != c;
                    crate::assoc::lemma_key_at(res0, e2);
                    let ri = choose|ri: int|
                        0 <= ri < drained@[e2].1@.len() && stored_candidate(
                            store0,
                            (#[trigger] drained@[e2].1@[ri])@,
                            d,
                        );
                    assert(binds(res0, c, (drained@[e2].1@[ri])@));
                    assert(requeued_edge(res0, store0, c, d));
                }
            }
        }
    }

    /// The identities of every stored symbol that depends on a symbol
    /// carrying `symbol_name`.
    pub fn lookup_references(&self, symbol_name: &String) -> (r: Vec<String>)
        requires
            self.symbol_store.wf(),
        ensures
            forall|c: Seq<char>|
                #[trigger] contains_str(r@, c) == (has_key(self.symbol_store.table(), c) && exists|
                    d: Seq<char>,
                |
                    #[trigger] contains_str(
                        value_of(self.symbol_store.table(), c).dependencies@,
                        d,
                    ) && stored_candidate(self.symbol_store.table(), symbol_name@, d)),
    {
        let t = self.symbol_store.get_symbols();
        let n = t.len();
        let mut r: Vec<String> = Vec::new();
        let mut i: usize = 0;
        while i < n
            invariant
                n == t@.len(),
                t@ == self.symbol_store.table(),
                self.symbol_store.wf(),
                i <= n,
                forall|c: Seq<char>|
                    #[trigger] contains_str(r@, c) == (exists|j: int|
                        0 <= j < i && (#[trigger] t@[j]).0@ == c && exists|d: Seq<char>|
                            #[trigger] contains_str(t@[j].1.dependencies@, d) && stored_candidate(
                                t@,
                                symbol_name@,
                                d,
                            )),
            decreases n - i,
        {
            let ghost oldr = r@;
            let deps = &t[i].1.dependencies;
            let nd = deps.len();
            let mut found = false;
            let mut k: usize = 0;
            while k < nd
                invariant
                    nd == deps@.len(),
                    k <= nd,
                    deps == t@[i as int].1.dependencies,
                    i < n,
                    n == t@.len(),
                    t@ == self.symbol_store.table(),
                    self.symbol_store.wf(),
                    found == (exists|k2: int|
                        0 <= k2 < k && stored_candidate(t@, symbol_name@, (#[trigger] deps@[k2])@)),
                decreases nd - k,
            {
                if !found {
                    match find_key(t, &deps[k]) {
                        Some(si) => {
                            proof {
                                crate::assoc::lemma_key_at(t@, si as int);
                            }
                            if t[si].1.name == *symbol_name {
                                found = true;
                                proof {
                                    assert(stored_candidate(
                                        t@,
                                        symbol_name@,
                                        deps@[k as int]@,
                                    ));
                                }
                            }
                        },
                        None => {},
                    }
                }
                proof {
                    if !found && exists|k2: int|
                        0 <= k2 < k + 1 && stored_candidate(
                            t@,
                            symbol_name@,
                            (#[trigger] deps@[k2])@,
                        ) {
                        let k2 = choose|k2: int|
                            0 <= k2 < k + 1 && stored_candidate(
                                t@,
                                symbol_name@,
                                (#[trigger] deps@[k2])@,
                            );
                        assert(k2 == k);
                        assert(has_key(t@, deps@[k as int]@));
                    }
                }
                k = k + 1;
            }
            if found {
                proof {
                    crate::assoc::lemma_key_at(t@, i as int);
                    if contains_str(oldr, t@[i as int].0@) {
                        let j = choose|j: int|
                            0 <= j < i && (#[trigger] t@[j]).0@ == t@[i as int].0@ && exists|
                                d: Seq<char>,
                            |
                                #[trigger] contains_str(t@[j].1.dependencies@, d)
                                    && stored_candidate(t@, symbol_name@, d);
                        assert(false);
                    }
                }
                r.push(t[i].0.clone());
                proof {
                    let k2 = choose|k2: int|
                        0 <= k2 < nd && stored_candidate(
                            t@,
                            symbol_name@,
                            (#[trigger] deps@[k2])@,
                        );
                    assert forall|c: Seq<char>| #[trigger] contains_str(r@, c) == (exists|j: int|
                        0 <= j < i + 1 && (#[trigger] t@[j]).0@ == c && exists|d: Seq<char>|
                            #[trigger] contains_str(t@[j].1.dependencies@, d) && stored_candidate(
                                t@,
                                symbol_name@,
                                d,
                            )) by {
                        if contains_str(r@, c) {
                            let x = choose|x: int| 0 <= x < r@.len() && r@[x]@ == c;
                            if x < oldr.len() {
                                assert(contains_str(oldr, c));
                            } else {
                                assert(c == t@[i as int].0@);
                                assert(contains_str(t@[i as int].1.dependencies@, deps@[k2]@)
                                    && stored_candidate(t@, symbol_name@, deps@[k2]@));
                            }
                        }
                        if exists|j: int|
                            0 <= j < i + 1 && (#[trigger] t@[j]).0@ == c && exists|d: Seq<char>|
                                #[trigger] contains_str(t@[j].1.dependencies@, d)
                                    && stored_candidate(t@, symbol_name@, d) {
                            let j = choose|j: int|
                                0 <= j < i + 1 && (#[trigger] t@[j]).0@ == c && exists|
                                    d: Seq<char>,
                                |
                                    #[trigger] contains_str(t@[j].1.dependencies@, d)
                                        && stored_candidate(t@, symbol_name@, d);
                            if j < i {
                                assert(contains_str(oldr, c));
                                let x = choose|x: int| 0 <= x < oldr.len() && oldr[x]@ == c;
                                assert(r@[x]@ == c);
                            } else {
                                assert(r@[r@.len() - 1]@ == c);
                            }
                        }
                    }
                }
            } else {
                proof {
                    assert forall|c: Seq<char>| #[trigger] contains_str(r@, c) == (exists|j: int|
                        0 <= j < i + 1 && (#[trigger] t@[j]).0@ == c && exists|d: Seq<char>|
                            #[trigger] contains_str(t@[j].1.dependencies@, d) && stored_candidate(
                                t@,
                                symbol_name@,
                                d,
                            )) by {
                        if exists|j: int|
                            0 <= j < i + 1 && (#[trigger] t@[j]).0@ == c && exists|d: Seq<char>|
                                #[trigger] contains_str(t@[j].1.dependencies@, d)
                                    && stored_candidate(t@, symbol_name@, d) {
                            let j = choose|j: int|
                                0 <= j < i + 1 && (#[trigger] t@[j]).0@ == c && exists|
                                    d: Seq<char>,
                                |
                                    #[trigger] contains_str(t@[j].1.dependencies@, d)
                                        && stored_candidate(t@, symbol_name@, d);
                            if j == i {
                                let d = choose|d: Seq<char>|
                                    #[trigger] contains_str(t@[i as int].1.dependencies@, d)
                                        && stored_candidate(t@, symbol_name@, d);
                                let k2 = choose|k2: int|
                                    0 <= k2 < deps@.len() && (#[trigger] deps@[k2])@ == d;
                                assert(stored_candidate(t@, symbol_name@, deps@[k2]@));
                                assert(false);
                            }
                        }
                    }
                }
            }
            i = i + 1;
        }
        proof {
            assert forall|c: Seq<char>| #[trigger] contains_str(r@, c) == (has_key(
                self.symbol_store.table(),
                c,
            ) && exists|d: Seq<char>|
                #[trigger] contains_str(
                    value_of(self.symbol_store.table(), c).dependencies@,
                    d,
                ) && stored_candidate(self.symbol_store.table(), symbol_name@, d)) by {
                if contains_str(r@, c) {
                    let j = choose|j: int|
                        0 <= j < n && (#[trigger] t@[j]).0@ == c && exists|d: Seq<char>|
                            #[trigger] contains_str(t@[j].1.dependencies@, d) && stored_candidate(
                                t@,
                                symbol_name@,
                                d,
                            );
                    crate::assoc::lemma_key_at(t@, j);
                }
                if has_key(self.symbol_store.table(), c) && exists|d: Seq<char>|
                    #[trigger] contains_str(
                        value_of(self.symbol_store.table(), c).dependencies@,
                        d,
                    ) && stored_candidate(self.symbol_store.table(), symbol_name@, d) {
                    let j = index_of_key(t@, c);
                    crate::assoc::lemma_key_at(t@, j);
                    assert(t@[j].0@ == c);
                }
            }
        }
        r
    }

    /// Evicts every symbol defined in `file_path`: the symbols leave the
    /// store, their identities disappear from all remaining dependency and
    /// `used_by` sets, their own unresolved entries are dropped, and each
    /// remaining symbol that lost a dependency is re-queued under the lost
    /// symbol's name.
    pub fn remove_deleted_symbols_in_file(&mut self, file_path: &String)
        requires
            old(self).wf(),
        ensures
            final(self).wf(),
            final(self).file_hashes == old(self).file_hashes,
            forall|h: Seq<char>|
                #[trigger] has_key(final(self).symbol_store.table(), h) == (has_key(
                    old(self).symbol_store.table(),
                    h,
                ) && value_of(old(self).symbol_store.table(), h).file_path@ != file_path@),
            forall|h: Seq<char>|
                #[trigger] has_key(final(self).symbol_store.table(), h) ==> {
                    let prev = value_of(old(self).symbol_store.table(), h);
                    let cur = value_of(final(self).symbol_store.table(), h);
                    &&& same_core(cur, prev)
                    &&& forall|d: Seq<char>|
                        #[trigger] contains_str(cur.dependencies@, d) == (contains_str(
                            prev.dependencies@,
                            d,
                        ) && !(has_key(old(self).symbol_store.table(), d) && value_of(
                            old(self).symbol_store.table(),
                            d,
                        ).file_path@ == file_path@))
                    &&& forall|u: Seq<char>|
                        #[trigger] contains_str(cur.used_by@, u) == (contains_str(prev.used_by@, u)
                            && !(has_key(old(self).symbol_store.table(), u) && value_of(
                            old(self).symbol_store.table(),
                            u,
                        ).file_path@ == file_path@))
                },
    {
        let victims = self.collect_file_victims(file_path);
        self.purge_ids(&victims);
    }
}

/// Edge symmetry: in a well-formed index, symbol `a` lists `b` among its
/// dependencies exactly when `b` lists `a` among its users.
pub proof fn lemma_edge_symmetry(idx: Indexer, a: Seq<char>, b: Seq<char>)
    requires
        idx.wf(),
        has_key(idx.symbol_store.table(), a),
        has_key(idx.symbol_store.table(), b),
    ensures
        contains_str(value_of(idx.symbol_store.table(), a).dependencies@, b) == contains_str(
            value_of(idx.symbol_store.table(), b).used_by@,
            a,
        ),
{
    let t = idx.symbol_store.table();
    let ia = index_of_key(t, a);
    let ib = index_of_key(t, b);
    crate::assoc::lemma_key_at(t, ia);
    crate::assoc::lemma_key_at(t, ib);
    if contains_str(value_of(t, a).dependencies@, b) {
        assert(contains_str(t[ia].1.dependencies@, b));
        assert(contains_str(value_of(t, b).used_by@, t[ia].0@));
    }
    if contains_str(value_of(t, b).used_by@, a) {
        assert(contains_str(t[ib].1.used_by@, a));
        assert(contains_str(value_of(t, a).dependencies@, t[ib].0@));
    }
}

/// No self-edges: in a well-formed index, no symbol depends on itself or
/// lists itself among its users.
pub proof fn lemma_no_self_edges(idx: Indexer, s: Seq<char>)
    requires
        idx.wf(),
        has_key(idx.symbol_store.table(), s),
    ensures
        !contains_str(value_of(idx.symbol_store.table(), s).dependencies@, s),
        !contains_str(value_of(idx.symbol_store.table(), s).used_by@, s),
{
    let t = idx.symbol_store.table();
    let i = index_of_key(t, s);
    crate::assoc::lemma_key_at(t, i);
}

/// Eviction completeness: an identity that is absent from a well-formed
/// index appears in no symbol's dependencies or `used_by` set. Together with
/// `index_extracted`'s key set (a file's old symbols that were not
/// re-created are gone), every edge to the file's previous version is gone.
pub proof fn lemma_eviction_complete(idx: Indexer, h: Seq<char>)
    requires
        idx.wf(),
        !has_key(idx.symbol_store.table(), h),
    ensures
        forall|c: Seq<char>|
            #[trigger] has_key(idx.symbol_store.table(), c) ==> !contains_str(
                value_of(idx.symbol_store.table(), c).dependencies@,
                h,
            ) && !contains_str(value_of(idx.symbol_store.table(), c).used_by@, h),
{
    let t = idx.symbol_store.table();
    assert forall|c: Seq<char>| #[trigger] has_key(t, c) implies !contains_str(
        value_of(t, c).dependencies@,
        h,
    ) && !contains_str(value_of(t, c).used_by@, h) by {
        let i = index_of_key(t, c);
        crate::assoc::lemma_key_at(t, i);
        if contains_str(t[i].1.dependencies@, h) {
            assert(has_key(t, h));
        }
        if contains_str(t[i].1.used_by@, h) {
            assert(has_key(t, h));
        }
    }
}

/// Forward-reference repair: let `pre` and `post` be the index before and
/// after one `recheck_unresolved` call (related as that function's contract
/// states). If `pre` records raw name `n` under caller `c` and stores a
/// symbol `d != c` named `n`, then `post` has the edge in both directions
/// and no unresolved entry binds `n` to `c` any more.
pub proof fn lemma_forward_reference_repair(
    pre: Indexer,
    post: Indexer,
    c: Seq<char>,
    n: Seq<char>,
    d: Seq<char>,
)
    requires
        pre.wf(),
        post.wf(),
        forall|h: Seq<char>|
            #[trigger] has_key(post.symbol_store.table(), h) == has_key(
                pre.symbol_store.table(),
                h,
            ),
        forall|x: Seq<char>, y: Seq<char>|
            has_key(pre.symbol_store.table(), x) ==> #[trigger] contains_str(
                value_of(post.symbol_store.table(), x).dependencies@,
                y,
            ) == (contains_str(value_of(pre.symbol_store.table(), x).dependencies@, y) || (
            requeued_edge(
                pre.dependency_resolver.table(),
                pre.symbol_store.table(),
                x,
                y,
            ) && y != x)),
        forall|x: Seq<char>, r: Seq<char>|
            #[trigger] binds(post.dependency_resolver.table(), x, r) == (binds(
                pre.dependency_resolver.table(),
                x,
                r,
            ) && !has_name(pre.symbol_store.table(), r)),
        binds(pre.dependency_resolver.table(), c, n),
        has_key(pre.symbol_store.table(), c),
        stored_candidate(pre.symbol_store.table(), n, d),
        d != c,
    ensures
        contains_str(value_of(post.symbol_store.table(), c).dependencies@, d),
        contains_str(value_of(post.symbol_store.table(), d).used_by@, c),
        !binds(post.dependency_resolver.table(), c, n),
{
    assert(requeued_edge(pre.dependency_resolver.table(), pre.symbol_store.table(), c, d));
    assert(contains_str(value_of(post.symbol_store.table(), c).dependencies@, d));
    assert(has_key(post.symbol_store.table(), c));
    assert(has_key(post.symbol_store.table(), d));
    lemma_edge_symmetry(post, c, d);
    assert(!binds(post.dependency_resolver.table(), c, n)) by {
        let t = pre.symbol_store.table();
        let i = index_of_key(t, d);
        crate::assoc::lemma_key_at(t, i);
        assert(t[i].1.name@ == n);
        assert(has_name(t, n));
    }
}

/// Change-detection soundness, and the hinge of idempotence: after a
/// successful `index_extracted` for `path` with fingerprint `fp`, the stored
/// fingerprint equals `fp`; a later `index_file` for the same path and
/// unchanged bytes therefore meets the engine's unchanged case and leaves
/// the whole index untouched (see `index_file`'s contract).
pub proof fn lemma_unchanged_file_is_skipped(idx: Indexer, path: Seq<char>, fp: Seq<char>)
    requires
        idx.wf(),
        has_key(idx.file_hashes.table(), path),
        value_of(idx.file_hashes.table(), path)@ == fp,
    ensures
        !crate::file_hashes::spec_has_changed(idx.file_hashes.table(), path, fp),
{
}

} // verus!
