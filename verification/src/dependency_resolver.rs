use vstd::prelude::*;

use crate::assoc::{find_key, has_key, index_of_key, unique_keys, value_of};

verus! {

/// Records references that could not be resolved when first met (forward
/// or cross-file references). Each entry pairs the identity of the caller
/// symbol with the raw names that did not resolve, in the order they were
/// met; duplicates are kept.
pub struct DependencyResolver {
    pub unresolved_deps: Vec<(String, Vec<String>)>,
}

impl DependencyResolver {
    /// The table of (caller identity, raw names) entries.
    pub open spec fn table(self) -> Seq<(String, Vec<String>)> {
        self.unresolved_deps@
    }

    /// Keys are pairwise distinct.
    pub open spec fn wf(self) -> bool {
        unique_keys(self.table())
    }

    /// An empty table.
    pub fn new() -> (r: DependencyResolver)
        ensures
            r.table().len() == 0,
            r.wf(),
    {
        DependencyResolver { unresolved_deps: Vec::new() }
    }

    /// How many callers have unresolved references.
    pub fn len(&self) -> (r: usize)
        ensures
            r == self.table().len(),
    {
        self.unresolved_deps.len()
    }

    /// Appends `missing_name` to the entry of `caller_hash`, creating the
    /// entry if there is none.
    pub fn add(&mut self, caller_hash: String, missing_name: String)
        requires
            old(self).wf(),
        ensures
            final(self).wf(),
            has_key(final(self).table(), caller_hash@),
            value_of(final(self).table(), caller_hash@)@ == if has_key(
                old(self).table(),
                caller_hash@,
            ) {
                value_of(old(self).table(), caller_hash@)@.push(missing_name)
            } else {
                Seq::<String>::empty().push(missing_name)
            },
            forall|k2: Seq<char>|
                k2 != caller_hash@ ==> #[trigger] has_key(final(self).table(), k2) == has_key(
                    old(self).table(),
                    k2,
                ) && (has_key(old(self).table(), k2) ==> value_of(final(self).table(), k2)
                    == value_of(old(self).table(), k2)),
    {
        let ghost oldt = self.unresolved_deps@;
        match find_key(&self.unresolved_deps, &caller_hash) {
            Some(i) => {
                let mut pair = self.unresolved_deps.remove(i);
                pair.1.push(missing_name);
                self.unresolved_deps.insert(i, pair);
                proof {
                    crate::assoc::lemma_key_at(oldt, i as int);
                    assert(self.unresolved_deps@ =~= oldt.update(
                        i as int,
                        self.unresolved_deps@[i as int],
                    ));
                    assert(self.unresolved_deps@[i as int].1@ =~= oldt[i as int].1@.push(
                        self.unresolved_deps@[i as int].1@.last(),
                    ));
                    crate::assoc::lemma_key_at(self.unresolved_deps@, i as int);
                    assert forall|k2: Seq<char>| k2 != caller_hash@ implies #[trigger] has_key(
                        self.unresolved_deps@,
                        k2,
                    ) == has_key(oldt, k2) && (has_key(oldt, k2) ==> value_of(
                        self.unresolved_deps@,
                        k2,
                    ) == value_of(oldt, k2)) by {
                        if has_key(oldt, k2) {
                            let j = index_of_key(oldt, k2);
                            assert(self.unresolved_deps@[j].0@ == k2);
                            crate::assoc::lemma_key_at(self.unresolved_deps@, j);
                        }
                        if has_key(self.unresolved_deps@, k2) {
                            let j = index_of_key(self.unresolved_deps@, k2);
                            assert(oldt[j].0@ == k2);
                        }
                    }
                }
            },
            None => {
                let mut names: Vec<String> = Vec::new();
                names.push(missing_name);
                self.unresolved_deps.push((caller_hash, names));
                proof {
                    let newt = self.unresolved_deps@;
                    crate::assoc::lemma_key_at(newt, newt.len() - 1);
                    assert(value_of(newt, newt[newt.len() - 1].0@)@ =~= Seq::<
                        String,
                    >::empty().push(newt[newt.len() - 1].1@[0]));
                    assert forall|k2: Seq<char>| k2 != newt[newt.len() - 1].0@ implies #[trigger]
                    has_key(newt, k2) == has_key(oldt, k2) && (has_key(oldt, k2) ==> value_of(
                        newt,
                        k2,
                    ) == value_of(oldt, k2)) by {
                        if has_key(oldt, k2) {
                            let j = index_of_key(oldt, k2);
                            assert(newt[j].0@ == k2);
                            crate::assoc::lemma_key_at(newt, j);
                        }
                        if has_key(newt, k2) {
                            let j = index_of_key(newt, k2);
                            assert(j < oldt.len() && oldt[j].0@ == k2);
                        }
                    }
                }
            },
        }
    }

    /// Moves the whole table out, leaving it empty.
    pub fn collect_drained(&mut self) -> (r: Vec<(String, Vec<String>)>)
        ensures
            r@ == old(self).table(),
            final(self).table().len() == 0,
            final(self).wf(),
    {
        let mut drained: Vec<(String, Vec<String>)> = Vec::new();
        core::mem::swap(&mut drained, &mut self.unresolved_deps);
        drained
    }

    /// Drops every entry whose caller identity is listed in `callers`.
    pub fn purge_callers(&mut self, callers: &Vec<String>)
        requires
            old(self).wf(),
        ensures
            final(self).wf(),
            forall|c: Seq<char>|
                #[trigger] has_key(final(self).table(), c) == (has_key(old(self).table(), c)
                    && !crate::assoc::contains_str(callers@, c)),
            forall|c: Seq<char>|
                has_key(final(self).table(), c) ==> value_of(final(self).table(), c) == value_of(
                    old(self).table(),
                    c,
                ),
    {
        let ghost oldt = self.unresolved_deps@;
        let mut olds: Vec<(String, Vec<String>)> = Vec::new();
        core::mem::swap(&mut olds, &mut self.unresolved_deps);
        let mut kept: Vec<(String, Vec<String>)> = Vec::new();
        let ghost n = oldt.len();
        let ghost mut i: int = 0;
        while olds.len() > 0
            invariant
                0 <= i <= n,
                n == oldt.len(),
                olds@ == oldt.subrange(i, n as int),
                unique_keys(oldt),
                forall|k: int|
                    0 <= k < kept@.len() ==> has_key(oldt, (#[trigger] kept@[k]).0@)
                        && !crate::assoc::contains_str(callers@, kept@[k].0@) && value_of(
                        oldt,
                        kept@[k].0@,
                    ) == kept@[k].1 && index_of_key(oldt, kept@[k].0@) < i,
                forall|j: int|
                    0 <= j < i && !crate::assoc::contains_str(callers@, (#[trigger] oldt[j]).0@)
                        ==> has_key(kept@, oldt[j].0@) && value_of(kept@, oldt[j].0@) == oldt[j].1,
                unique_keys(kept@),
            decreases olds@.len(),
        {
            let entry = olds.remove(0);
            proof {
                assert(entry == oldt[i]);
            }
            let ghost oldk = kept@;
            if !crate::assoc::vec_contains_string(callers, &entry.0) {
                proof {
                    crate::assoc::lemma_key_at(oldt, i);
                    if has_key(oldk, entry.0@) {
                        let k = crate::assoc::index_of_key(oldk, entry.0@);
                        assert(oldk[k].0@ == entry.0@);
                        assert(index_of_key(oldt, oldk[k].0@) < i);
                        assert(false);
                    }
                }
                kept.push(entry);
                proof {
                    crate::assoc::lemma_key_at(kept@, kept@.len() - 1);
                    assert forall|j: int|
                        0 <= j < i + 1 && !crate::assoc::contains_str(
                            callers@,
                            (#[trigger] oldt[j]).0@,
                        ) implies has_key(kept@, oldt[j].0@) && value_of(kept@, oldt[j].0@)
                        == oldt[j].1 by {
                        if j < i {
                            let k = crate::assoc::index_of_key(oldk, oldt[j].0@);
                            assert(kept@[k].0@ == oldt[j].0@);
                            crate::assoc::lemma_key_at(kept@, k);
                        }
                    }
                }
            } else {
                proof {
                    assert forall|j: int|
                        0 <= j < i + 1 && !crate::assoc::contains_str(
                            callers@,
                            (#[trigger] oldt[j]).0@,
                        ) implies has_key(kept@, oldt[j].0@) && value_of(kept@, oldt[j].0@)
                        == oldt[j].1 by {
                        assert(j < i);
                    }
                }
            }
            proof {
                i = i + 1;
                assert(olds@ =~= oldt.subrange(i, n as int));
            }
        }
        self.unresolved_deps = kept;
        proof {
            assert forall|c: Seq<char>| #[trigger] has_key(self.unresolved_deps@, c) == (has_key(
                oldt,
                c,
            ) && !crate::assoc::contains_str(callers@, c)) by {
                if has_key(self.unresolved_deps@, c) {
                    let k = index_of_key(self.unresolved_deps@, c);
                    assert(self.unresolved_deps@[k].0@ == c);
                }
                if has_key(oldt, c) && !crate::assoc::contains_str(callers@, c) {
                    let j = index_of_key(oldt, c);
                    assert(oldt[j].0@ == c);
                }
            }
            assert forall|c: Seq<char>| #[trigger] has_key(self.unresolved_deps@, c) implies
                value_of(self.unresolved_deps@, c) == value_of(oldt, c) by {
                let k = index_of_key(self.unresolved_deps@, c);
                assert(self.unresolved_deps@[k].0@ == c);
                crate::assoc::lemma_key_at(self.unresolved_deps@, k);
            }
        }
    }

    /// Installs `deps` as the whole table.
    pub fn replace_unresolved(&mut self, deps: Vec<(String, Vec<String>)>)
        ensures
            final(self).table() == deps@,
    {
        self.unresolved_deps = deps;
    }
}

} // verus!
