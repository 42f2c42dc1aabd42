use vstd::prelude::*;

use crate::assoc::{
    contains_str, find_key, has_key, index_of_key, lemma_key_at, unique_keys, value_of,
    push_if_absent,
};
use crate::name_map::{binds, name_map_add, name_map_wf};
use crate::symbol::Symbol;

verus! {

/// The dependency graph over a symbol table is well formed: every edge
/// points at a stored symbol and has its mirror edge on the other side
/// (`d` is among my dependencies exactly when I am among `d`'s users), and
/// no symbol refers to itself.
pub open spec fn graph_wf(t: Seq<(String, Symbol)>) -> bool {
    &&& forall|i: int, d: Seq<char>|
        0 <= i < t.len() && #[trigger] contains_str(t[i].1.dependencies@, d) ==> has_key(t, d)
            && contains_str(value_of(t, d).used_by@, t[i].0@)
    &&& forall|i: int, u: Seq<char>|
        0 <= i < t.len() && #[trigger] contains_str(t[i].1.used_by@, u) ==> has_key(t, u)
            && contains_str(value_of(t, u).dependencies@, t[i].0@)
    &&& forall|i: int|
        0 <= i < t.len() ==> !contains_str((#[trigger] t[i]).1.dependencies@, t[i].0@)
            && !contains_str(t[i].1.used_by@, t[i].0@)
}

/// Appending a fresh symbol with no edges keeps a well-formed graph well
/// formed: the new entry has no edges, and nothing could point at it.
pub proof fn lemma_graph_wf_push(t: Seq<(String, Symbol)>, entry: (String, Symbol))
    requires
        unique_keys(t),
        graph_wf(t),
        !has_key(t, entry.0@),
        entry.1.dependencies@.len() == 0,
        entry.1.used_by@.len() == 0,
    ensures
        graph_wf(t.push(entry)),
{
    let t2 = t.push(entry);
    assert forall|k: Seq<char>| k != entry.0@ && #[trigger] has_key(t, k) implies has_key(t2, k)
        && value_of(t2, k) == value_of(t, k) by {
        let j = index_of_key(t, k);
        assert(t2[j].0@ == k);
        lemma_key_at(t, j);
        assert(unique_keys(t2)) by {
            assert forall|a: int, b: int| 0 <= a < b < t2.len() implies t2[a].0@ != t2[b].0@ by {
                if b == t2.len() - 1 {
                    assert(t2[a] == t[a]);
                    assert(has_key(t, t[a].0@));
                } else {
                    assert(t2[a] == t[a] && t2[b] == t[b]);
                }
            }
        }
        lemma_key_at(t2, j);
    }
    assert forall|i: int, d: Seq<char>|
        0 <= i < t2.len() && #[trigger] contains_str(t2[i].1.dependencies@, d) implies has_key(
        t2,
        d,
    ) && contains_str(value_of(t2, d).used_by@, t2[i].0@) by {
        if i < t.len() {
            assert(contains_str(t[i].1.dependencies@, d));
            assert(has_key(t, d) && contains_str(value_of(t, d).used_by@, t[i].0@));
            assert(d != entry.0@);
        } else {
            assert(t2[i].1.dependencies@.len() == 0);
        }
    }
    assert forall|i: int, u: Seq<char>|
        0 <= i < t2.len() && #[trigger] contains_str(t2[i].1.used_by@, u) implies has_key(t2, u)
        && contains_str(value_of(t2, u).dependencies@, t2[i].0@) by {
        if i < t.len() {
            assert(contains_str(t[i].1.used_by@, u));
            assert(has_key(t, u) && contains_str(value_of(t, u).dependencies@, t[i].0@));
            assert(u != entry.0@);
        } else {
            assert(t2[i].1.used_by@.len() == 0);
        }
    }
    assert forall|i: int|
        0 <= i < t2.len() implies !contains_str((#[trigger] t2[i]).1.dependencies@, t2[i].0@)
        && !contains_str(t2[i].1.used_by@, t2[i].0@) by {
        if i < t.len() {
            assert(t2[i] == t[i]);
        }
    }
}

/// The six location fields of `a` and `b` agree.
pub open spec fn same_core(a: Symbol, b: Symbol) -> bool {
    a.name == b.name && a.node_kind == b.node_kind && a.file_path == b.file_path && a.line_number
        == b.line_number && a.start_byte == b.start_byte && a.end_byte == b.end_byte
}

/// Keyed collection of symbols: each entry pairs a symbol with its identity,
/// in insertion order, keys pairwise distinct and each equal to the hash of
/// its symbol.
pub struct SymbolStore {
    pub symbols: Vec<(String, Symbol)>,
}

impl SymbolStore {
    /// The table of (identity, symbol) entries.
    pub open spec fn table(self) -> Seq<(String, Symbol)> {
        self.symbols@
    }

    /// Keys are distinct, each key is its symbol's identity, and edge lists
    /// hold no duplicates.
    pub open spec fn wf(self) -> bool {
        &&& unique_keys(self.table())
        &&& forall|i: int|
            0 <= i < self.table().len() ==> (#[trigger] self.table()[i].0@)
                == self.table()[i].1.identity()
        &&& forall|i: int| 0 <= i < self.table().len() ==> (#[trigger] self.table()[i].1).edges_wf()
    }

    /// An empty store.
    pub fn new() -> (r: SymbolStore)
        ensures
            r.table().len() == 0,
            r.wf(),
    {
        SymbolStore { symbols: Vec::new() }
    }

    /// How many symbols are stored.
    pub fn len(&self) -> (r: usize)
        ensures
            r == self.table().len(),
    {
        self.symbols.len()
    }

    /// The stored entries, in insertion order.
    pub fn get_symbols(&self) -> (r: &Vec<(String, Symbol)>)
        ensures
            r@ == self.table(),
    {
        &self.symbols
    }

    /// Installs `symbol` under its identity, replacing (in place) and
    /// returning any symbol previously stored under that identity.
    pub fn add_symbol(&mut self, symbol: Symbol) -> (r: Option<Symbol>)
        requires
            old(self).wf(),
            symbol.edges_wf(),
        ensures
            final(self).wf(),
            has_key(final(self).table(), symbol.identity()),
            value_of(final(self).table(), symbol.identity()) == symbol,
            match r {
                Some(prev) => {
                    &&& has_key(old(self).table(), symbol.identity())
                    &&& prev == value_of(old(self).table(), symbol.identity())
                    &&& final(self).table() =~= old(self).table().update(
                        index_of_key(old(self).table(), symbol.identity()),
                        (old(self).table()[index_of_key(old(self).table(), symbol.identity())].0,
                        symbol),
                    )
                },
                None => {
                    &&& !has_key(old(self).table(), symbol.identity())
                    &&& final(self).table().len() == old(self).table().len() + 1
                    &&& final(self).table().last().1 == symbol
                    &&& forall|j: int|
                        0 <= j < old(self).table().len() ==> #[trigger] final(self).table()[j]
                            == old(self).table()[j]
                },
            },
            forall|k2: Seq<char>|
                k2 != symbol.identity() ==> #[trigger] has_key(final(self).table(), k2) == has_key(
                    old(self).table(),
                    k2,
                ) && (has_key(old(self).table(), k2) ==> value_of(final(self).table(), k2)
                    == value_of(old(self).table(), k2)),
    {
        let ghost oldt = self.symbols@;
        let hash = symbol.hash();
        match find_key(&self.symbols, &hash) {
            Some(i) => {
                let pair = self.symbols.remove(i);
                self.symbols.insert(i, (pair.0, symbol));
                let prev = pair.1;
                proof {
                    crate::assoc::lemma_key_at(oldt, i as int);
                    assert(self.symbols@ =~= oldt.update(i as int, self.symbols@[i as int]));
                    crate::assoc::lemma_key_at(self.symbols@, i as int);
                    assert forall|k2: Seq<char>| k2 != symbol.identity() implies #[trigger] has_key(
                        self.symbols@,
                        k2,
                    ) == has_key(oldt, k2) && (has_key(oldt, k2) ==> value_of(self.symbols@, k2)
                        == value_of(oldt, k2)) by {
                        if has_key(oldt, k2) {
                            let j = index_of_key(oldt, k2);
                            assert(self.symbols@[j].0@ == k2);
                            crate::assoc::lemma_key_at(self.symbols@, j);
                        }
                        if has_key(self.symbols@, k2) {
                            let j = index_of_key(self.symbols@, k2);
                            assert(oldt[j].0@ == k2);
                        }
                    }
                }
                Some(prev)
            },
            None => {
                self.symbols.push((hash, symbol));
                proof {
                    crate::assoc::lemma_key_at(self.symbols@, self.symbols@.len() - 1);
                    assert forall|k2: Seq<char>| k2 != symbol.identity() implies #[trigger] has_key(
                        self.symbols@,
                        k2,
                    ) == has_key(oldt, k2) && (has_key(oldt, k2) ==> value_of(self.symbols@, k2)
                        == value_of(oldt, k2)) by {
                        if has_key(oldt, k2) {
                            let j = index_of_key(oldt, k2);
                            assert(self.symbols@[j].0@ == k2);
                            crate::assoc::lemma_key_at(self.symbols@, j);
                        }
                        if has_key(self.symbols@, k2) {
                            let j = index_of_key(self.symbols@, k2);
                            assert(j < oldt.len() && oldt[j].0@ == k2);
                        }
                    }
                }
                None
            },
        }
    }

    /// Removes the symbol stored under `sym_hash` and, when one was there,
    /// erases `sym_hash` from the `used_by` set of every remaining symbol.
    pub fn remove_symbol(&mut self, sym_hash: &String) -> (r: Option<Symbol>)
        requires
            old(self).wf(),
        ensures
            final(self).wf(),
            !has_key(final(self).table(), sym_hash@),
            match r {
                Some(sym) => {
                    &&& has_key(old(self).table(), sym_hash@)
                    &&& sym == value_of(old(self).table(), sym_hash@)
                    &&& final(self).table().len() == old(self).table().len() - 1
                },
                None => {
                    &&& !has_key(old(self).table(), sym_hash@)
                    &&& *final(self) == *old(self)
                },
            },
            forall|k2: Seq<char>|
                k2 != sym_hash@ ==> #[trigger] has_key(final(self).table(), k2) == has_key(
                    old(self).table(),
                    k2,
                ),
            forall|k2: Seq<char>|
                has_key(old(self).table(), sym_hash@) && k2 != sym_hash@ && #[trigger] has_key(
                    old(self).table(),
                    k2,
                ) ==> {
                    let prev = value_of(old(self).table(), k2);
                    let cur = value_of(final(self).table(), k2);
                    &&& cur.name == prev.name
                    &&& cur.node_kind == prev.node_kind
                    &&& cur.file_path == prev.file_path
                    &&& cur.line_number == prev.line_number
                    &&& cur.start_byte == prev.start_byte
                    &&& cur.end_byte == prev.end_byte
                    &&& cur.dependencies == prev.dependencies
                    &&& forall|u: Seq<char>|
                        #[trigger] contains_str(cur.used_by@, u) == (contains_str(prev.used_by@, u)
                            && u != sym_hash@)
                },
    {
        let ghost oldt = self.symbols@;
        match find_key(&self.symbols, sym_hash) {
            Some(i) => {
                let pair = self.symbols.remove(i);
                proof {
                    crate::assoc::lemma_key_at(oldt, i as int);
                }
                let ghost midt = self.symbols@;
                proof {
                    assert(midt =~= oldt.remove(i as int));
                    assert(unique_keys(midt)) by {
                        assert forall|a: int, b: int| 0 <= a < b < midt.len() implies midt[a].0@
                            != midt[b].0@ by {
                            let a0 = if a < i { a } else { a + 1 };
                            let b0 = if b < i { b } else { b + 1 };
                            assert(midt[a] == oldt[a0] && midt[b] == oldt[b0]);
                        }
                    }
                }
                // Erase the removed identity from every remaining used_by set.
                let n = self.symbols.len();
                let mut j: usize = 0;
                while j < n
                    invariant
                        n == self.symbols@.len(),
                        j <= n,
                        self.symbols@.len() == midt.len(),
                        unique_keys(midt),
                        forall|k: int|
                            0 <= k < midt.len() ==> (#[trigger] midt[k].0@)
                                == midt[k].1.identity(),
                        forall|k: int| 0 <= k < midt.len() ==> (#[trigger] midt[k].1).edges_wf(),
                        forall|k: int| 0 <= k < n ==> self.symbols@[k].0 == midt[k].0,
                        forall|k: int|
                            j <= k < n ==> (#[trigger] self.symbols@[k]).1 == midt[k].1,
                        forall|k: int|
                            0 <= k < j ==> {
                                let prev = midt[k].1;
                                let cur = (#[trigger] self.symbols@[k]).1;
                                &&& cur.name == prev.name
                                &&& cur.node_kind == prev.node_kind
                                &&& cur.file_path == prev.file_path
                                &&& cur.line_number == prev.line_number
                                &&& cur.start_byte == prev.start_byte
                                &&& cur.end_byte == prev.end_byte
                                &&& cur.dependencies == prev.dependencies
                                &&& cur.edges_wf()
                                &&& cur.identity() == prev.identity()
                                &&& forall|u: Seq<char>|
                                    #[trigger] contains_str(cur.used_by@, u) == (contains_str(
                                        prev.used_by@,
                                        u,
                                    ) && u != sym_hash@)
                            },
                    decreases n - j,
                {
                    let ghost pre = self.symbols@;
                    let mut entry = self.symbols.remove(j);
                    let mut del: Vec<String> = Vec::new();
                    del.push(sym_hash.clone());
                    let ghost prev_used = entry.1.used_by@;
                    let filtered = crate::assoc::retain_not_in(&entry.1.used_by, &del);
                    entry.1.used_by = filtered;
                    proof {
                        assert(del@[0]@ == sym_hash@);
                        assert forall|u: Seq<char>| #[trigger] contains_str(entry.1.used_by@, u)
                            == (contains_str(prev_used, u) && u != sym_hash@) by {
                            if contains_str(del@, u) {
                                assert(del@[0]@ == u);
                            }
                            if u == sym_hash@ {
                                assert(contains_str(del@, u));
                            }
                        }
                    }
                    self.symbols.insert(j, entry);
                    proof {
                        assert(self.symbols@ =~= pre.update(j as int, self.symbols@[j as int]));
                    }
                    j = j + 1;
                }
                proof {
                    assert(self.wf()) by {
                        assert forall|a: int, b: int|
                            0 <= a < b < self.symbols@.len() implies self.symbols@[a].0@
                            != self.symbols@[b].0@ by {
                            assert(self.symbols@[a].0 == midt[a].0);
                            assert(self.symbols@[b].0 == midt[b].0);
                        }
                    }
                    assert(!has_key(self.symbols@, sym_hash@)) by {
                        if has_key(self.symbols@, sym_hash@) {
                            let k = index_of_key(self.symbols@, sym_hash@);
                            let k0 = if k < i { k } else { k + 1 };
                            assert(oldt[k0].0@ == sym_hash@);
                            assert(k0 != i ==> oldt[k0].0@ != oldt[i as int].0@);
                        }
                    }
                    assert forall|k2: Seq<char>| k2 != sym_hash@ implies #[trigger] has_key(
                        self.symbols@,
                        k2,
                    ) == has_key(oldt, k2) by {
                        if has_key(oldt, k2) {
                            let k = index_of_key(oldt, k2);
                            let knew = if k < i { k } else { k - 1 };
                            assert(k != i);
                            assert(self.symbols@[knew].0 == midt[knew].0);
                            assert(midt[knew].0 == oldt[k].0);
                        }
                        if has_key(self.symbols@, k2) {
                            let k = index_of_key(self.symbols@, k2);
                            let k0 = if k < i { k } else { k + 1 };
                            assert(midt[k].0 == oldt[k0].0);
                        }
                    }
                    assert forall|k2: Seq<char>|
                        k2 != sym_hash@ && has_key(oldt, k2) implies {
                        let prev = value_of(oldt, k2);
                        let cur = value_of(self.symbols@, k2);
                        &&& cur.name == prev.name
                        &&& cur.node_kind == prev.node_kind
                        &&& cur.file_path == prev.file_path
                        &&& cur.line_number == prev.line_number
                        &&& cur.start_byte == prev.start_byte
                        &&& cur.end_byte == prev.end_byte
                        &&& cur.dependencies == prev.dependencies
                        &&& forall|u: Seq<char>|
                            #[trigger] contains_str(cur.used_by@, u) == (contains_str(
                                prev.used_by@,
                                u,
                            ) && u != sym_hash@)
                    } by {
                        let k = index_of_key(oldt, k2);
                        assert(oldt[k].0@ == k2);
                        let knew = if k < i { k } else { k - 1 };
                        assert(k != i);
                        assert(midt[knew] == oldt[k]);
                        assert(self.symbols@[knew].0 == midt[knew].0);
                        crate::assoc::lemma_key_at(self.symbols@, knew);
                        crate::assoc::lemma_key_at(oldt, k);
                    }
                }
                Some(pair.1)
            },
            None => None,
        }
    }

    /// Inserts `caller_hash` into the `used_by` set of the symbol stored
    /// under `callee_hash`; false when no such symbol exists.
    pub fn add_used_by(&mut self, callee_hash: &String, caller_hash: &String) -> (r: bool)
        requires
            old(self).wf(),
        ensures
            final(self).wf(),
            r == has_key(old(self).table(), callee_hash@),
            forall|k2: Seq<char>|
                #[trigger] has_key(final(self).table(), k2) == has_key(old(self).table(), k2),
            !r ==> *final(self) == *old(self),
            r ==> {
                let prev = value_of(old(self).table(), callee_hash@);
                let cur = value_of(final(self).table(), callee_hash@);
                &&& cur.name == prev.name
                &&& cur.node_kind == prev.node_kind
                &&& cur.file_path == prev.file_path
                &&& cur.line_number == prev.line_number
                &&& cur.start_byte == prev.start_byte
                &&& cur.end_byte == prev.end_byte
                &&& cur.dependencies == prev.dependencies
                &&& forall|u: Seq<char>|
                    #[trigger] contains_str(cur.used_by@, u) == (contains_str(prev.used_by@, u)
                        || u == caller_hash@)
            },
            r ==> forall|k2: Seq<char>|
                k2 != callee_hash@ && has_key(old(self).table(), k2)
                    ==> #[trigger] value_of(final(self).table(), k2) == value_of(
                    old(self).table(),
                    k2,
                ),
    {
        let ghost oldt = self.symbols@;
        match find_key(&self.symbols, callee_hash) {
            Some(i) => {
                proof {
                    crate::assoc::lemma_key_at(oldt, i as int);
                }
                let mut entry = self.symbols.remove(i);
                push_if_absent(&mut entry.1.used_by, caller_hash.clone());
                self.symbols.insert(i, entry);
                proof {
                    assert(self.symbols@ =~= oldt.update(i as int, self.symbols@[i as int]));
                    crate::assoc::lemma_key_at(self.symbols@, i as int);
                    assert forall|k2: Seq<char>| #[trigger] has_key(self.symbols@, k2) == has_key(
                        oldt,
                        k2,
                    ) by {
                        if has_key(oldt, k2) {
                            let j = index_of_key(oldt, k2);
                            assert(self.symbols@[j].0 == oldt[j].0);
                        }
                        if has_key(self.symbols@, k2) {
                            let j = index_of_key(self.symbols@, k2);
                            assert(oldt[j].0@ == k2);
                        }
                    }
                    assert forall|k2: Seq<char>|
                        k2 != callee_hash@ && has_key(oldt, k2) implies #[trigger] value_of(
                        self.symbols@,
                        k2,
                    ) == value_of(oldt, k2) by {
                        let j = index_of_key(oldt, k2);
                        assert(self.symbols@[j] == oldt[j]);
                        crate::assoc::lemma_key_at(self.symbols@, j);
                    }
                }
                true
            },
            None => false,
        }
    }

    /// Removes every symbol whose identity is listed in `victim_ids` and
    /// erases those identities from the edge sets of all remaining symbols.
    /// Returns the dependency edges that were cut: one (dependent identity,
    /// victim identity) pair for each erased dependency, dependents in table
    /// order and, within one dependent, victims in dependency order.
    pub fn evict(&mut self, victim_ids: &Vec<String>) -> (lost: Vec<(String, String)>)
        requires
            old(self).wf(),
        ensures
            final(self).wf(),
            forall|h: Seq<char>|
                #[trigger] has_key(final(self).table(), h) == (has_key(old(self).table(), h)
                    && !contains_str(victim_ids@, h)),
            forall|h: Seq<char>|
                #[trigger] has_key(final(self).table(), h) ==> {
                    let prev = value_of(old(self).table(), h);
                    let cur = value_of(final(self).table(), h);
                    &&& same_core(cur, prev)
                    &&& forall|d: Seq<char>|
                        #[trigger] contains_str(cur.dependencies@, d) == (contains_str(
                            prev.dependencies@,
                            d,
                        ) && !contains_str(victim_ids@, d))
                    &&& forall|u: Seq<char>|
                        #[trigger] contains_str(cur.used_by@, u) == (contains_str(prev.used_by@, u)
                            && !contains_str(victim_ids@, u))
                },
            graph_wf(old(self).table()) ==> graph_wf(final(self).table()),
            forall|p: int|
                0 <= p < lost@.len() ==> {
                    let c = (#[trigger] lost@[p]).0@;
                    let d = lost@[p].1@;
                    &&& has_key(final(self).table(), c)
                    &&& contains_str(victim_ids@, d)
                    &&& has_key(old(self).table(), c)
                    &&& contains_str(value_of(old(self).table(), c).dependencies@, d)
                },
            forall|c: Seq<char>, d: Seq<char>|
                has_key(old(self).table(), c) && !contains_str(victim_ids@, c) && #[trigger]
                contains_str(
                    value_of(old(self).table(), c).dependencies@,
                    d,
                ) && contains_str(victim_ids@, d) ==> exists|p: int|
                    0 <= p < lost@.len() && (#[trigger] lost@[p]).0@ == c && lost@[p].1@ == d,
    {
        let ghost oldt = self.symbols@;
        // Phase 1: drop the victims' own entries.
        let mut olds: Vec<(String, Symbol)> = Vec::new();
        core::mem::swap(&mut olds, &mut self.symbols);
        let mut kept: Vec<(String, Symbol)> = Vec::new();
        let ghost n0 = oldt.len();
        let ghost mut i: int = 0;
        while olds.len() > 0
            invariant
                0 <= i <= n0,
                n0 == oldt.len(),
                olds@ == oldt.subrange(i, n0 as int),
                unique_keys(oldt),
                forall|k: int|
                    0 <= k < kept@.len() ==> has_key(oldt, (#[trigger] kept@[k]).0@)
                        && !contains_str(victim_ids@, kept@[k].0@) && value_of(oldt, kept@[k].0@)
                        == kept@[k].1 && index_of_key(oldt, kept@[k].0@) < i,
                forall|j: int|
                    0 <= j < i && !contains_str(victim_ids@, (#[trigger] oldt[j]).0@) ==> has_key(
                        kept@,
                        oldt[j].0@,
                    ) && value_of(kept@, oldt[j].0@) == oldt[j].1,
                unique_keys(kept@),
            decreases olds@.len(),
        {
            let entry = olds.remove(0);
            proof {
                assert(entry == oldt[i]);
            }
            let ghost oldk = kept@;
            if !crate::assoc::vec_contains_string(victim_ids, &entry.0) {
                proof {
                    crate::assoc::lemma_key_at(oldt, i);
                    if has_key(oldk, entry.0@) {
                        let k = index_of_key(oldk, entry.0@);
                        assert(oldk[k].0@ == entry.0@);
                        assert(index_of_key(oldt, oldk[k].0@) < i);
                        assert(false);
                    }
                }
                kept.push(entry);
                proof {
                    crate::assoc::lemma_key_at(kept@, kept@.len() - 1);
                    assert forall|j: int|
                        0 <= j < i + 1 && !contains_str(
                            victim_ids@,
                            (#[trigger] oldt[j]).0@,
                        ) implies has_key(kept@, oldt[j].0@) && value_of(kept@, oldt[j].0@)
                        == oldt[j].1 by {
                        if j < i {
                            let k = index_of_key(oldk, oldt[j].0@);
                            assert(kept@[k].0@ == oldt[j].0@);
                            crate::assoc::lemma_key_at(kept@, k);
                        }
                    }
                }
            } else {
                proof {
                    assert forall|j: int|
                        0 <= j < i + 1 && !contains_str(
                            victim_ids@,
                            (#[trigger] oldt[j]).0@,
                        ) implies has_key(kept@, oldt[j].0@) && value_of(kept@, oldt[j].0@)
                        == oldt[j].1 by {
                        assert(j < i);
                    }
                }
            }
            proof {
                i = i + 1;
                assert(olds@ =~= oldt.subrange(i, n0 as int));
            }
        }
        self.symbols = kept;
        let ghost midt = self.symbols@;
        proof {
            assert forall|h: Seq<char>| #[trigger] has_key(midt, h) == (has_key(oldt, h)
                && !contains_str(victim_ids@, h)) by {
                if has_key(midt, h) {
                    let k = index_of_key(midt, h);
                    assert(midt[k].0@ == h);
                }
                if has_key(oldt, h) && !contains_str(victim_ids@, h) {
                    let j = index_of_key(oldt, h);
                    assert(oldt[j].0@ == h);
                }
            }
            assert forall|h: Seq<char>| #[trigger] has_key(midt, h) implies value_of(midt, h)
                == value_of(oldt, h) by {
                let k = index_of_key(midt, h);
                assert(midt[k].0@ == h);
                crate::assoc::lemma_key_at(midt, k);
            }
        }
        // Phase 2: erase the victims from the remaining edge sets, recording
        // each cut dependency edge.
        let mut lost: Vec<(String, String)> = Vec::new();
        let n = self.symbols.len();
        let mut j: usize = 0;
        while j < n
            invariant
                n == self.symbols@.len(),
                j <= n,
                self.symbols@.len() == midt.len(),
                unique_keys(midt),
                forall|k: int|
                    0 <= k < midt.len() ==> (#[trigger] midt[k].0@) == midt[k].1.identity(),
                forall|k: int| 0 <= k < midt.len() ==> (#[trigger] midt[k].1).edges_wf(),
                forall|k: int| 0 <= k < n ==> self.symbols@[k].0 == midt[k].0,
                forall|k: int| j <= k < n ==> (#[trigger] self.symbols@[k]).1 == midt[k].1,
                forall|k: int|
                    0 <= k < j ==> {
                        let prev = midt[k].1;
                        let cur = (#[trigger] self.symbols@[k]).1;
                        &&& same_core(cur, prev)
                        &&& cur.edges_wf()
                        &&& cur.identity() == prev.identity()
                        &&& forall|d: Seq<char>|
                            #[trigger] contains_str(cur.dependencies@, d) == (contains_str(
                                prev.dependencies@,
                                d,
                            ) && !contains_str(victim_ids@, d))
                        &&& forall|u: Seq<char>|
                            #[trigger] contains_str(cur.used_by@, u) == (contains_str(
                                prev.used_by@,
                                u,
                            ) && !contains_str(victim_ids@, u))
                    },
                forall|p: int|
                    0 <= p < lost@.len() ==> {
                        let c = (#[trigger] lost@[p]).0@;
                        let d = lost@[p].1@;
                        &&& has_key(midt, c)
                        &&& contains_str(victim_ids@, d)
                        &&& contains_str(value_of(midt, c).dependencies@, d)
                    },
                forall|k: int, d: Seq<char>|
                    0 <= k < j && #[trigger] contains_str(midt[k].1.dependencies@, d)
                        && contains_str(victim_ids@, d) ==> exists|p: int|
                        0 <= p < lost@.len() && (#[trigger] lost@[p]).0@ == midt[k].0@
                            && lost@[p].1@ == d,
            decreases n - j,
        {
            let ghost pre = self.symbols@;
            let ghost oldlost = lost@;
            let mut entry = self.symbols.remove(j);
            let parts = crate::assoc::partition_by(&entry.1.dependencies, victim_ids);
            let ghost prev_deps = entry.1.dependencies@;
            let ghost prev_used = entry.1.used_by@;
            entry.1.dependencies = parts.0;
            let filtered_used = crate::assoc::retain_not_in(&entry.1.used_by, victim_ids);
            entry.1.used_by = filtered_used;
            let dropped = parts.1;
            let m = dropped.len();
            let mut q: usize = 0;
            while q < m
                invariant
                    m == dropped@.len(),
                    q <= m,
                    lost@.len() == oldlost.len() + q,
                    forall|p: int| 0 <= p < oldlost.len() ==> #[trigger] lost@[p] == oldlost[p],
                    forall|p: int|
                        oldlost.len() <= p < lost@.len() ==> (#[trigger] lost@[p]).0 == entry.0
                            && lost@[p].1 == dropped@[p - oldlost.len()],
                decreases m - q,
            {
                lost.push((entry.0.clone(), dropped[q].clone()));
                q = q + 1;
            }
            self.symbols.insert(j, entry);
            proof {
                assert(self.symbols@ =~= pre.update(j as int, self.symbols@[j as int]));
                crate::assoc::lemma_key_at(midt, j as int);
                assert forall|p: int|
                    0 <= p < lost@.len() implies {
                    let c = (#[trigger] lost@[p]).0@;
                    let d = lost@[p].1@;
                    &&& has_key(midt, c)
                    &&& contains_str(victim_ids@, d)
                    &&& contains_str(value_of(midt, c).dependencies@, d)
                } by {
                    if p >= oldlost.len() {
                        assert(lost@[p].0@ == midt[j as int].0@);
                        assert(contains_str(dropped@, lost@[p].1@));
                    }
                }
                assert forall|k: int, d: Seq<char>|
                    0 <= k < j + 1 && #[trigger] contains_str(midt[k].1.dependencies@, d)
                        && contains_str(victim_ids@, d) implies exists|p: int|
                    0 <= p < lost@.len() && (#[trigger] lost@[p]).0@ == midt[k].0@ && lost@[p].1@
                        == d by {
                    if k < j {
                        let p = choose|p: int|
                            0 <= p < oldlost.len() && (#[trigger] oldlost[p]).0@ == midt[k].0@
                                && oldlost[p].1@ == d;
                        assert(lost@[p].0@ == midt[k].0@ && lost@[p].1@ == d);
                    } else {
                        assert(contains_str(prev_deps, d));
                        assert(contains_str(dropped@, d));
                        let q0 = choose|q0: int| 0 <= q0 < dropped@.len() && dropped@[q0]@ == d;
                        assert(lost@[oldlost.len() + q0].0@ == midt[k].0@);
                        assert(lost@[oldlost.len() + q0].1@ == d);
                    }
                }
            }
            j = j + 1;
        }
        proof {
            let newt = self.symbols@;
            assert(unique_keys(newt)) by {
                assert forall|a: int, b: int| 0 <= a < b < newt.len() implies newt[a].0@
                    != newt[b].0@ by {
                    assert(newt[a].0 == midt[a].0);
                    assert(newt[b].0 == midt[b].0);
                }
            }
            assert forall|h: Seq<char>| #[trigger] has_key(newt, h) == has_key(midt, h) by {
                if has_key(newt, h) {
                    let k = index_of_key(newt, h);
                    assert(midt[k].0@ == h);
                }
                if has_key(midt, h) {
                    let k = index_of_key(midt, h);
                    assert(newt[k].0@ == h);
                }
            }
            assert forall|h: Seq<char>| #[trigger] has_key(newt, h) implies {
                let prev = value_of(oldt, h);
                let cur = value_of(newt, h);
                &&& same_core(cur, prev)
                &&& forall|d: Seq<char>|
                    #[trigger] contains_str(cur.dependencies@, d) == (contains_str(
                        prev.dependencies@,
                        d,
                    ) && !contains_str(victim_ids@, d))
                &&& forall|u: Seq<char>|
                    #[trigger] contains_str(cur.used_by@, u) == (contains_str(prev.used_by@, u)
                        && !contains_str(victim_ids@, u))
            } by {
                let k = index_of_key(newt, h);
                assert(newt[k].0@ == h);
                assert(midt[k].0@ == h);
                crate::assoc::lemma_key_at(newt, k);
                crate::assoc::lemma_key_at(midt, k);
                assert(value_of(midt, h) == value_of(oldt, h));
            }
            assert forall|p: int|
                0 <= p < lost@.len() implies {
                let c = (#[trigger] lost@[p]).0@;
                let d = lost@[p].1@;
                &&& has_key(newt, c)
                &&& contains_str(victim_ids@, d)
                &&& has_key(oldt, c)
                &&& contains_str(value_of(oldt, c).dependencies@, d)
            } by {
                assert(has_key(midt, lost@[p].0@));
                assert(value_of(midt, lost@[p].0@) == value_of(oldt, lost@[p].0@));
            }
            assert forall|c: Seq<char>, d: Seq<char>|
                has_key(oldt, c) && !contains_str(victim_ids@, c) && #[trigger] contains_str(
                    value_of(oldt, c).dependencies@,
                    d,
                ) && contains_str(victim_ids@, d) implies exists|p: int|
                0 <= p < lost@.len() && (#[trigger] lost@[p]).0@ == c && lost@[p].1@ == d by {
                assert(has_key(midt, c));
                let k = index_of_key(midt, c);
                crate::assoc::lemma_key_at(midt, k);
                assert(value_of(midt, c) == value_of(oldt, c));
                assert(contains_str(midt[k].1.dependencies@, d));
            }
            if graph_wf(oldt) {
                assert forall|k: int, d: Seq<char>|
                    0 <= k < newt.len() && #[trigger] contains_str(
                        newt[k].1.dependencies@,
                        d,
                    ) implies has_key(newt, d) && contains_str(value_of(newt, d).used_by@,
                    newt[k].0@) by {
                    let h = newt[k].0@;
                    crate::assoc::lemma_key_at(newt, k);
                    assert(has_key(newt, h));
                    let prev = value_of(oldt, h);
                    assert(contains_str(prev.dependencies@, d) && !contains_str(victim_ids@, d));
                    let jo = index_of_key(oldt, h);
                    crate::assoc::lemma_key_at(oldt, jo);
                    assert(contains_str(oldt[jo].1.dependencies@, d));
                    assert(has_key(oldt, d) && contains_str(value_of(oldt, d).used_by@, h));
                    assert(has_key(newt, d));
                    assert(contains_str(value_of(newt, d).used_by@, h)) by {
                        assert(!contains_str(victim_ids@, h));
                    }
                }
                assert forall|k: int, u: Seq<char>|
                    0 <= k < newt.len() && #[trigger] contains_str(
                        newt[k].1.used_by@,
                        u,
                    ) implies has_key(newt, u) && contains_str(value_of(newt, u).dependencies@,
                    newt[k].0@) by {
                    let h = newt[k].0@;
                    crate::assoc::lemma_key_at(newt, k);
                    let prev = value_of(oldt, h);
                    assert(contains_str(prev.used_by@, u) && !contains_str(victim_ids@, u));
                    let jo = index_of_key(oldt, h);
                    crate::assoc::lemma_key_at(oldt, jo);
                    assert(contains_str(oldt[jo].1.used_by@, u));
                    assert(has_key(oldt, u) && contains_str(value_of(oldt, u).dependencies@, h));
                    assert(has_key(newt, u));
                    assert(contains_str(value_of(newt, u).dependencies@, h)) by {
                        assert(!contains_str(victim_ids@, h));
                    }
                }
                assert forall|k: int|
                    0 <= k < newt.len() implies !contains_str(
                    (#[trigger] newt[k]).1.dependencies@,
                    newt[k].0@,
                ) && !contains_str(newt[k].1.used_by@, newt[k].0@) by {
                    let h = newt[k].0@;
                    crate::assoc::lemma_key_at(newt, k);
                    let jo = index_of_key(oldt, h);
                    crate::assoc::lemma_key_at(oldt, jo);
                    if contains_str(newt[k].1.dependencies@, h) {
                        assert(contains_str(oldt[jo].1.dependencies@, h));
                    }
                    if contains_str(newt[k].1.used_by@, h) {
                        assert(contains_str(oldt[jo].1.used_by@, h));
                    }
                }
            }
        }
        lost
    }

    /// Adds every identity in `new_deps` to the dependency set of the symbol
    /// stored under `h`, and `h` to the `used_by` set of each of them: the
    /// two sides of each new edge are installed together, so a well-formed
    /// graph stays well formed.
    pub fn link_dependencies(&mut self, h: &String, new_deps: &Vec<String>)
        requires
            old(self).wf(),
            has_key(old(self).table(), h@),
            contains_str(new_deps@, h@) == false,
            forall|c: Seq<char>|
                #[trigger] contains_str(new_deps@, c) ==> has_key(old(self).table(), c),
        ensures
            final(self).wf(),
            forall|k: Seq<char>|
                #[trigger] has_key(final(self).table(), k) == has_key(old(self).table(), k),
            ({
                let prev = value_of(old(self).table(), h@);
                let cur = value_of(final(self).table(), h@);
                &&& same_core(cur, prev)
                &&& cur.used_by == prev.used_by
                &&& forall|d: Seq<char>|
                    #[trigger] contains_str(cur.dependencies@, d) == (contains_str(
                        prev.dependencies@,
                        d,
                    ) || contains_str(new_deps@, d))
            }),
            forall|k: Seq<char>|
                k != h@ && #[trigger] has_key(old(self).table(), k) ==> {
                    let prev = value_of(old(self).table(), k);
                    let cur = value_of(final(self).table(), k);
                    &&& same_core(cur, prev)
                    &&& cur.dependencies == prev.dependencies
                    &&& forall|u: Seq<char>|
                        #[trigger] contains_str(cur.used_by@, u) == (contains_str(prev.used_by@, u)
                            || (u == h@ && contains_str(new_deps@, k)))
                },
            graph_wf(old(self).table()) ==> graph_wf(final(self).table()),
    {
        let ghost oldt = self.symbols@;
        // Install the forward side: extend the dependency set of `h`.
        let i = match find_key(&self.symbols, h) {
            Some(i) => i,
            None => {
                proof {
                    assert(false);
                }
                0
            },
        };
        proof {
            crate::assoc::lemma_key_at(oldt, i as int);
        }
        let mut entry = self.symbols.remove(i);
        let nd = new_deps.len();
        let mut q: usize = 0;
        while q < nd
            invariant
                nd == new_deps@.len(),
                q <= nd,
                0 <= i < oldt.len(),
                entry.1.edges_wf(),
                same_core(entry.1, oldt[i as int].1),
                entry.0 == oldt[i as int].0,
                entry.1.used_by == oldt[i as int].1.used_by,
                entry.1.identity() == oldt[i as int].1.identity(),
                forall|d: Seq<char>|
                    #[trigger] contains_str(entry.1.dependencies@, d) == (contains_str(
                        oldt[i as int].1.dependencies@,
                        d,
                    ) || exists|p: int| 0 <= p < q && new_deps@[p]@ == d),
            decreases nd - q,
        {
            let ghost predeps = entry.1.dependencies@;
            crate::assoc::push_if_absent(&mut entry.1.dependencies, new_deps[q].clone());
            proof {
                assert forall|d: Seq<char>| #[trigger] contains_str(entry.1.dependencies@, d)
                    == (contains_str(oldt[i as int].1.dependencies@, d) || exists|p: int|
                    0 <= p < q + 1 && new_deps@[p]@ == d) by {
                    assert(contains_str(entry.1.dependencies@, d) == (contains_str(predeps, d) || d
                        == new_deps@[q as int]@));
                    if exists|p: int| 0 <= p < q + 1 && new_deps@[p]@ == d {
                        let p = choose|p: int| 0 <= p < q + 1 && new_deps@[p]@ == d;
                        if p < q {
                            assert(contains_str(predeps, d));
                        }
                    }
                }
            }
            q = q + 1;
        }
        self.symbols.insert(i, entry);
        let ghost midt = self.symbols@;
        proof {
            assert(midt =~= oldt.update(i as int, midt[i as int]));
            crate::assoc::lemma_key_at(midt, i as int);
            assert forall|k: Seq<char>| #[trigger] has_key(midt, k) == has_key(oldt, k) by {
                if has_key(oldt, k) {
                    let p = index_of_key(oldt, k);
                    assert(midt[p].0 == oldt[p].0);
                }
                if has_key(midt, k) {
                    let p = index_of_key(midt, k);
                    assert(oldt[p].0@ == k);
                }
            }
            assert forall|k: Seq<char>| k != h@ && #[trigger] has_key(oldt, k) implies value_of(
                midt,
                k,
            ) == value_of(oldt, k) by {
                let p = index_of_key(oldt, k);
                assert(midt[p] == oldt[p]);
                crate::assoc::lemma_key_at(midt, p);
            }
        }
        // Install the reverse side: `h` becomes a user of each new dependency.
        let mut q2: usize = 0;
        while q2 < nd
            invariant
                nd == new_deps@.len(),
                q2 <= nd,
                self.wf(),
                unique_keys(midt),
                has_key(midt, h@),
                contains_str(new_deps@, h@) == false,
                value_of(self.symbols@, h@) == value_of(midt, h@),
                forall|k: Seq<char>| #[trigger] has_key(self.symbols@, k) == has_key(midt, k),
                forall|k: Seq<char>|
                    #[trigger] has_key(midt, k) ==> {
                        let prev = value_of(midt, k);
                        let cur = value_of(self.symbols@, k);
                        &&& same_core(cur, prev)
                        &&& cur.dependencies == prev.dependencies
                        &&& cur.identity() == prev.identity()
                        &&& forall|u: Seq<char>|
                            #[trigger] contains_str(cur.used_by@, u) == (contains_str(
                                prev.used_by@,
                                u,
                            ) || (u == h@ && exists|p: int| 0 <= p < q2 && new_deps@[p]@ == k))
                    },
                forall|c: Seq<char>| #[trigger] contains_str(new_deps@, c) ==> has_key(midt, c),
            decreases nd - q2,
        {
            let ghost before = self.symbols@;
            let ok = self.add_used_by(&new_deps[q2], h);
            proof {
                assert(contains_str(new_deps@, new_deps@[q2 as int]@));
                assert(ok);
                assert forall|k: Seq<char>| #[trigger] has_key(midt, k) implies {
                    let prev = value_of(midt, k);
                    let cur = value_of(self.symbols@, k);
                    &&& same_core(cur, prev)
                    &&& cur.dependencies == prev.dependencies
                    &&& cur.identity() == prev.identity()
                    &&& forall|u: Seq<char>|
                        #[trigger] contains_str(cur.used_by@, u) == (contains_str(prev.used_by@, u)
                            || (u == h@ && exists|p: int| 0 <= p < q2 + 1 && new_deps@[p]@ == k))
                } by {
                    let prev = value_of(midt, k);
                    let mid = value_of(before, k);
                    let cur = value_of(self.symbols@, k);
                    if k == new_deps@[q2 as int]@ {
                        assert forall|u: Seq<char>| #[trigger] contains_str(cur.used_by@, u) == (
                        contains_str(prev.used_by@, u) || (u == h@ && exists|p: int|
                            0 <= p < q2 + 1 && new_deps@[p]@ == k)) by {
                            assert(contains_str(cur.used_by@, u) == (contains_str(mid.used_by@, u)
                                || u == h@));
                            if exists|p: int| 0 <= p < q2 + 1 && new_deps@[p]@ == k {
                            }
                        }
                    } else {
                        assert(cur == mid);
                        assert forall|u: Seq<char>| #[trigger] contains_str(cur.used_by@, u) == (
                        contains_str(prev.used_by@, u) || (u == h@ && exists|p: int|
                            0 <= p < q2 + 1 && new_deps@[p]@ == k)) by {
                            if exists|p: int| 0 <= p < q2 + 1 && new_deps@[p]@ == k {
                                let p = choose|p: int| 0 <= p < q2 + 1 && new_deps@[p]@ == k;
                                assert(p < q2);
                            }
                        }
                    }
                }
            }
            q2 = q2 + 1;
        }
        proof {
            let newt = self.symbols@;
            // Relate the final table to the original, entry by entry.
            let curh = value_of(newt, h@);
            let prevh = value_of(oldt, h@);
            let midh = value_of(midt, h@);
            assert(curh == midh);
            assert(same_core(curh, prevh));
            assert(curh.used_by == prevh.used_by);
            assert forall|d: Seq<char>| #[trigger] contains_str(curh.dependencies@, d) == (
            contains_str(prevh.dependencies@, d) || contains_str(new_deps@, d)) by {
                assert(curh.dependencies == midh.dependencies);
                if contains_str(new_deps@, d) {
                    let p = choose|p: int| 0 <= p < new_deps@.len() && new_deps@[p]@ == d;
                    assert(exists|p: int| 0 <= p < nd && new_deps@[p]@ == d);
                }
            }
            assert forall|k: Seq<char>| k != h@ && #[trigger] has_key(oldt, k) implies {
                let prev = value_of(oldt, k);
                let cur = value_of(newt, k);
                &&& same_core(cur, prev)
                &&& cur.dependencies == prev.dependencies
                &&& forall|u: Seq<char>|
                    #[trigger] contains_str(cur.used_by@, u) == (contains_str(prev.used_by@, u) || (
                    u == h@ && contains_str(new_deps@, k)))
            } by {
                assert(has_key(midt, k));
                assert(value_of(midt, k) == value_of(oldt, k));
                let prev = value_of(oldt, k);
                let cur = value_of(newt, k);
                assert forall|u: Seq<char>| #[trigger] contains_str(cur.used_by@, u) == (
                contains_str(prev.used_by@, u) || (u == h@ && contains_str(new_deps@, k))) by {
                    assert(contains_str(cur.used_by@, u) == (contains_str(prev.used_by@, u) || (u
                        == h@ && exists|p: int| 0 <= p < nd && new_deps@[p]@ == k)));
                    if contains_str(new_deps@, k) {
                        let p = choose|p: int| 0 <= p < new_deps@.len() && new_deps@[p]@ == k;
                        assert(exists|p: int| 0 <= p < nd && new_deps@[p]@ == k);
                    }
                }
            }
            // A well-formed graph stays well formed: each new edge was
            // installed on both sides, and old edges were kept on both.
            if graph_wf(oldt) {
                assert forall|k: int, d: Seq<char>|
                    0 <= k < newt.len() && #[trigger] contains_str(
                        newt[k].1.dependencies@,
                        d,
                    ) implies has_key(newt, d) && contains_str(value_of(newt, d).used_by@,
                    newt[k].0@) by {
                    let kk = newt[k].0@;
                    crate::assoc::lemma_key_at(newt, k);
                    let ko = index_of_key(oldt, kk);
                    crate::assoc::lemma_key_at(oldt, ko);
                    if kk == h@ {
                        if contains_str(prevh.dependencies@, d) {
                            assert(contains_str(oldt[ko].1.dependencies@, d));
                            assert(has_key(oldt, d) && contains_str(
                                value_of(oldt, d).used_by@,
                                h@,
                            ));
                            assert(d != h@);
                            assert(contains_str(value_of(newt, d).used_by@, h@));
                        } else {
                            assert(contains_str(new_deps@, d));
                            assert(has_key(oldt, d));
                            assert(d != h@);
                            assert(contains_str(value_of(newt, d).used_by@, h@));
                        }
                    } else {
                        assert(newt[k].1 == value_of(newt, kk));
                        assert(value_of(newt, kk).dependencies == value_of(oldt, kk).dependencies);
                        assert(contains_str(oldt[ko].1.dependencies@, d));
                        assert(has_key(oldt, d) && contains_str(value_of(oldt, d).used_by@, kk));
                        if d == h@ {
                            assert(contains_str(curh.used_by@, kk));
                        } else {
                            assert(contains_str(value_of(newt, d).used_by@, kk));
                        }
                    }
                }
                assert forall|k: int, u: Seq<char>|
                    0 <= k < newt.len() && #[trigger] contains_str(
                        newt[k].1.used_by@,
                        u,
                    ) implies has_key(newt, u) && contains_str(value_of(newt, u).dependencies@,
                    newt[k].0@) by {
                    let kk = newt[k].0@;
                    crate::assoc::lemma_key_at(newt, k);
                    let ko = index_of_key(oldt, kk);
                    crate::assoc::lemma_key_at(oldt, ko);
                    if kk == h@ {
                        assert(newt[k].1 == curh);
                        assert(contains_str(prevh.used_by@, u));
                        assert(contains_str(oldt[ko].1.used_by@, u));
                        assert(has_key(oldt, u) && contains_str(
                            value_of(oldt, u).dependencies@,
                            h@,
                        ));
                        assert(u != h@);
                        assert(value_of(newt, u).dependencies == value_of(oldt, u).dependencies);
                    } else {
                        assert(newt[k].1 == value_of(newt, kk));
                        if contains_str(value_of(oldt, kk).used_by@, u) {
                            assert(contains_str(oldt[ko].1.used_by@, u));
                            assert(has_key(oldt, u) && contains_str(
                                value_of(oldt, u).dependencies@,
                                kk,
                            ));
                            if u == h@ {
                                assert(contains_str(prevh.dependencies@, kk));
                                assert(contains_str(curh.dependencies@, kk));
                            } else {
                                assert(value_of(newt, u).dependencies == value_of(
                                    oldt,
                                    u,
                                ).dependencies);
                            }
                        } else {
                            assert(u == h@ && contains_str(new_deps@, kk));
                            assert(contains_str(curh.dependencies@, kk));
                        }
                    }
                }
                assert forall|k: int|
                    0 <= k < newt.len() implies !contains_str(
                    (#[trigger] newt[k]).1.dependencies@,
                    newt[k].0@,
                ) && !contains_str(newt[k].1.used_by@, newt[k].0@) by {
                    let kk = newt[k].0@;
                    crate::assoc::lemma_key_at(newt, k);
                    let ko = index_of_key(oldt, kk);
                    crate::assoc::lemma_key_at(oldt, ko);
                    assert(!contains_str(oldt[ko].1.dependencies@, kk));
                    assert(!contains_str(oldt[ko].1.used_by@, kk));
                    if kk == h@ {
                        assert(!contains_str(curh.dependencies@, kk));
                        assert(!contains_str(curh.used_by@, kk));
                    }
                }
            }
        }
    }

    /// Builds the name map of the whole store: identity `h` is bound to
    /// name `n` exactly when the store holds `h` and its symbol is named
    /// `n` (the name-map consistency the index relies on).
    pub fn build_name_map(&self) -> (r: Vec<(String, Vec<String>)>)
        requires
            self.wf(),
        ensures
            name_map_wf(r@),
            crate::name_map::no_empty_entries(r@),
            forall|n: Seq<char>, h: Seq<char>|
                #[trigger] binds(r@, n, h) == (has_key(self.table(), h) && value_of(
                    self.table(),
                    h,
                ).name@ == n),
    {
        let n = self.symbols.len();
        let mut r: Vec<(String, Vec<String>)> = Vec::new();
        let mut i: usize = 0;
        while i < n
            invariant
                self.wf(),
                n == self.symbols@.len(),
                i <= n,
                name_map_wf(r@),
                crate::name_map::no_empty_entries(r@),
                forall|nm: Seq<char>, h: Seq<char>|
                    #[trigger] binds(r@, nm, h) == (exists|j: int|
                        0 <= j < i && (#[trigger] self.symbols@[j]).0@ == h
                            && self.symbols@[j].1.name@ == nm),
            decreases n - i,
        {
            let ghost oldr = r@;
            name_map_add(&mut r, &self.symbols[i].1.name, &self.symbols[i].0);
            proof {
                assert forall|nm: Seq<char>, h: Seq<char>| #[trigger] binds(r@, nm, h) == (exists|
                    j: int,
                |
                    0 <= j < i + 1 && (#[trigger] self.symbols@[j]).0@ == h
                        && self.symbols@[j].1.name@ == nm) by {
                    if binds(r@, nm, h) {
                        if binds(oldr, nm, h) {
                            let j = choose|j: int|
                                0 <= j < i && (#[trigger] self.symbols@[j]).0@ == h
                                    && self.symbols@[j].1.name@ == nm;
                            assert(0 <= j < i + 1 && self.symbols@[j].0@ == h
                                && self.symbols@[j].1.name@ == nm);
                        } else {
                            assert(self.symbols@[i as int].0@ == h
                                && self.symbols@[i as int].1.name@ == nm);
                        }
                    }
                    if exists|j: int|
                        0 <= j < i + 1 && (#[trigger] self.symbols@[j]).0@ == h
                            && self.symbols@[j].1.name@ == nm {
                        let j = choose|j: int|
                            0 <= j < i + 1 && (#[trigger] self.symbols@[j]).0@ == h
                                && self.symbols@[j].1.name@ == nm;
                        if j < i {
                            assert(binds(oldr, nm, h));
                        }
                    }
                }
            }
            i = i + 1;
        }
        proof {
            assert forall|nm: Seq<char>, h: Seq<char>| #[trigger] binds(r@, nm, h) == (has_key(
                self.table(),
                h,
            ) && value_of(self.table(), h).name@ == nm) by {
                if binds(r@, nm, h) {
                    let j = choose|j: int|
                        0 <= j < n && (#[trigger] self.symbols@[j]).0@ == h
                            && self.symbols@[j].1.name@ == nm;
                    crate::assoc::lemma_key_at(self.symbols@, j);
                }
                if has_key(self.table(), h) && value_of(self.table(), h).name@ == nm {
                    let j = index_of_key(self.symbols@, h);
                    assert(0 <= j < n && self.symbols@[j].0@ == h && self.symbols@[j].1.name@
                        == nm);
                }
            }
        }
        r
    }
}

} // verus!
