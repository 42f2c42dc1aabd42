use vstd::prelude::*;

use crate::assoc::{find_key, has_key, index_of_key, unique_keys, value_of};

verus! {

/// Installs `value` under `key`: an existing entry is overwritten in place,
/// a missing one appended, and every other entry keeps its place and value.
fn upsert_entry<V>(table: &mut Vec<(String, V)>, key: String, value: V)
    requires
        unique_keys(old(table)@),
    ensures
        unique_keys(final(table)@),
        has_key(final(table)@, key@),
        value_of(final(table)@, key@) == value,
        forall|k2: Seq<char>|
            k2 != key@ ==> #[trigger] has_key(final(table)@, k2) == has_key(old(table)@, k2) && (
            has_key(old(table)@, k2) ==> value_of(final(table)@, k2) == value_of(old(table)@, k2)),
{
    let ghost oldt = table@;
    match find_key(table, &key) {
        Some(i) => {
            let _prev = table.remove(i);
            table.insert(i, (key, value));
            proof {
                assert(table@ =~= oldt.update(i as int, table@[i as int]));
                crate::assoc::lemma_key_at(oldt, i as int);
                crate::assoc::lemma_key_at(table@, i as int);
                assert forall|k2: Seq<char>| k2 != table@[i as int].0@ implies #[trigger] has_key(
                    table@,
                    k2,
                ) == has_key(oldt, k2) && (has_key(oldt, k2) ==> value_of(table@, k2) == value_of(
                    oldt,
                    k2,
                )) by {
                    if has_key(oldt, k2) {
                        let j = index_of_key(oldt, k2);
                        assert(table@[j].0@ == k2);
                        crate::assoc::lemma_key_at(table@, j);
                    }
                    if has_key(table@, k2) {
                        let j = index_of_key(table@, k2);
                        assert(oldt[j].0@ == k2);
                    }
                }
            }
        },
        None => {
            table.push((key, value));
            proof {
                let newt = table@;
                crate::assoc::lemma_key_at(newt, newt.len() - 1);
                assert forall|k2: Seq<char>| k2 != newt[newt.len() - 1].0@ implies #[trigger]
                has_key(newt, k2) == has_key(oldt, k2) && (has_key(oldt, k2) ==> value_of(newt, k2)
                    == value_of(oldt, k2)) by {
                    if has_key(oldt, k2) {
                        let j = index_of_key(oldt, k2);
                        assert(newt[j].0@ == k2);
                        crate::assoc::lemma_key_at(newt, j);
                    }
                    if has_key(newt, k2) {
                        let j = index_of_key(newt, k2);
                        assert(j < oldt.len() && oldt[j].0@ == k2);
                    }
                }
            }
        },
    }
}

/// A light-weight record of file fingerprints and the byte offsets of the
/// symbols found in each file, kept by the surrounding program between runs.
pub struct Cache {
    /// Maps file paths to their content fingerprints.
    pub file_hashes: Vec<(String, String)>,
    /// Maps file paths to the (start, end) byte offsets of their symbols.
    pub symbol_offsets: Vec<(String, Vec<(usize, usize)>)>,
}

impl Cache {
    /// Both tables have pairwise-distinct keys.
    pub open spec fn wf(self) -> bool {
        unique_keys(self.file_hashes@) && unique_keys(self.symbol_offsets@)
    }

    /// An empty cache.
    pub fn new() -> (r: Cache)
        ensures
            r.file_hashes@.len() == 0,
            r.symbol_offsets@.len() == 0,
            r.wf(),
    {
        Cache { file_hashes: Vec::new(), symbol_offsets: Vec::new() }
    }

    /// True iff `file_path` has no recorded fingerprint or a different one.
    pub fn has_changed(&self, file_path: &String, new_hash: &String) -> (r: bool)
        requires
            self.wf(),
        ensures
            r == (!has_key(self.file_hashes@, file_path@) || value_of(
                self.file_hashes@,
                file_path@,
            )@ != new_hash@),
    {
        match find_key(&self.file_hashes, file_path) {
            Some(i) => {
                proof {
                    crate::assoc::lemma_key_at(self.file_hashes@, i as int);
                }
                !(self.file_hashes[i].1 == *new_hash)
            },
            None => true,
        }
    }

    /// Records the fingerprint and symbol offsets of `file_path`, replacing
    /// any earlier record; entries for every other path are untouched.
    pub fn update(
        &mut self,
        file_path: String,
        new_hash: String,
        symbol_offsets: Vec<(usize, usize)>,
    )
        requires
            old(self).wf(),
        ensures
            final(self).wf(),
            has_key(final(self).file_hashes@, file_path@),
            value_of(final(self).file_hashes@, file_path@) == new_hash,
            has_key(final(self).symbol_offsets@, file_path@),
            value_of(final(self).symbol_offsets@, file_path@) == symbol_offsets,
            forall|k2: Seq<char>|
                k2 != file_path@ ==> #[trigger] has_key(final(self).file_hashes@, k2) == has_key(
                    old(self).file_hashes@,
                    k2,
                ) && (has_key(old(self).file_hashes@, k2) ==> value_of(
                    final(self).file_hashes@,
                    k2,
                ) == value_of(old(self).file_hashes@, k2)),
            forall|k2: Seq<char>|
                k2 != file_path@ ==> #[trigger] has_key(final(self).symbol_offsets@, k2) == has_key(
                    old(self).symbol_offsets@,
                    k2,
                ) && (has_key(old(self).symbol_offsets@, k2) ==> value_of(
                    final(self).symbol_offsets@,
                    k2,
                ) == value_of(old(self).symbol_offsets@, k2)),
    {
        upsert_entry(&mut self.file_hashes, file_path.clone(), new_hash);
        upsert_entry(&mut self.symbol_offsets, file_path, symbol_offsets);
    }
}

} // verus!
