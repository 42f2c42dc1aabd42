use vstd::prelude::*;

use crate::assoc::{find_key, has_key, index_of_key, unique_keys, value_of};

verus! {

/// The stored fingerprint for `path` differs from `new_hash`, or no
/// fingerprint is stored at all.
pub open spec fn spec_has_changed(
    table: Seq<(String, String)>,
    path: Seq<char>,
    new_hash: Seq<char>,
) -> bool {
    !has_key(table, path) || value_of(table, path)@ != new_hash
}

/// The table `new` is `old` with the value under `k` set to `val`: an
/// existing entry is overwritten in place, a missing one appended, and
/// every other entry keeps its place and value.
pub open spec fn spec_upserted(
    old: Seq<(String, String)>,
    new: Seq<(String, String)>,
    k: Seq<char>,
    val: Seq<char>,
) -> bool {
    &&& has_key(new, k)
    &&& value_of(new, k)@ == val
    &&& (if has_key(old, k) {
        new.len() == old.len()
    } else {
        new.len() == old.len() + 1
    })
    &&& forall|k2: Seq<char>|
        k2 != k ==> #[trigger] has_key(new, k2) == has_key(old, k2) && (has_key(old, k2)
            ==> value_of(new, k2)@ == value_of(old, k2)@)
}

/// Maps file paths to the SHA-256 fingerprint of their content as last
/// indexed, in first-seen order.
pub struct FileHashManager {
    pub file_hashes: Vec<(String, String)>,
}

impl FileHashManager {
    /// The table of (path, fingerprint) entries.
    pub open spec fn table(self) -> Seq<(String, String)> {
        self.file_hashes@
    }

    /// Keys are pairwise distinct.
    pub open spec fn wf(self) -> bool {
        unique_keys(self.table())
    }

    /// An empty store.
    pub fn new() -> (r: FileHashManager)
        ensures
            r.table().len() == 0,
            r.wf(),
    {
        FileHashManager { file_hashes: Vec::new() }
    }

    /// How many files have a recorded fingerprint.
    pub fn len(&self) -> (r: usize)
        ensures
            r == self.table().len(),
    {
        self.file_hashes.len()
    }

    /// Records `hash` as the fingerprint of `file_path`, replacing any
    /// earlier record for that path.
    pub fn insert(&mut self, file_path: &String, hash: &String)
        requires
            old(self).wf(),
        ensures
            final(self).wf(),
            spec_upserted(old(self).table(), final(self).table(), file_path@, hash@),
    {
        let ghost oldt = self.file_hashes@;
        match find_key(&self.file_hashes, file_path) {
            Some(i) => {
                let mut pair = self.file_hashes.remove(i);
                pair.1 = hash.clone();
                self.file_hashes.insert(i, pair);
                proof {
                    assert(self.file_hashes@ =~= oldt.update(i as int, (oldt[i as int].0, *hash)));
                    crate::assoc::lemma_key_at(oldt, i as int);
                    assert forall|k2: Seq<char>| k2 != file_path@ implies #[trigger] has_key(
                        self.file_hashes@,
                        k2,
                    ) == has_key(oldt, k2) && (has_key(oldt, k2) ==> value_of(
                        self.file_hashes@,
                        k2,
                    )@ == value_of(oldt, k2)@) by {
                        if has_key(oldt, k2) {
                            let j = index_of_key(oldt, k2);
                            assert(self.file_hashes@[j].0@ == k2);
                            crate::assoc::lemma_key_at(self.file_hashes@, j);
                        }
                        if has_key(self.file_hashes@, k2) {
                            let j = index_of_key(self.file_hashes@, k2);
                            assert(oldt[j].0@ == k2);
                        }
                    }
                    crate::assoc::lemma_key_at(self.file_hashes@, i as int);
                }
            },
            None => {
                self.file_hashes.push((file_path.clone(), hash.clone()));
                proof {
                    let newt = self.file_hashes@;
                    assert(newt[newt.len() - 1].0@ == file_path@);
                    crate::assoc::lemma_key_at(newt, newt.len() - 1);
                    assert forall|k2: Seq<char>| k2 != file_path@ implies #[trigger] has_key(
                        newt,
                        k2,
                    ) == has_key(oldt, k2) && (has_key(oldt, k2) ==> value_of(newt, k2)@
                        == value_of(oldt, k2)@) by {
                        if has_key(oldt, k2) {
                            let j = index_of_key(oldt, k2);
                            assert(newt[j].0@ == k2);
                            crate::assoc::lemma_key_at(newt, j);
                        }
                        if has_key(newt, k2) {
                            let j = index_of_key(newt, k2);
                            assert(j < oldt.len() && oldt[j].0@ == k2);
                        }
                    }
                }
            },
        }
    }

    /// The recorded paths, in table order.
    pub fn keys(&self) -> (r: Vec<String>)
        ensures
            r@.len() == self.table().len(),
            forall|i: int| 0 <= i < r@.len() ==> r@[i]@ == self.table()[i].0@,
    {
        let n = self.file_hashes.len();
        let mut r: Vec<String> = Vec::new();
        let mut i: usize = 0;
        while i < n
            invariant
                n == self.file_hashes@.len(),
                i <= n,
                r@.len() == i,
                forall|j: int| 0 <= j < i ==> r@[j]@ == self.file_hashes@[j].0@,
            decreases n - i,
        {
            r.push(self.file_hashes[i].0.clone());
            i = i + 1;
        }
        r
    }

    /// True iff `file_path` must be re-indexed: no fingerprint is stored for
    /// it, or the stored one differs from `new_hash`.
    pub fn has_changed(&self, file_path: &String, new_hash: &String) -> (r: bool)
        requires
            self.wf(),
        ensures
            r == spec_has_changed(self.table(), file_path@, new_hash@),
    {
        match find_key(&self.file_hashes, file_path) {
            Some(i) => {
                proof {
                    crate::assoc::lemma_key_at(self.file_hashes@, i as int);
                }
                !(self.file_hashes[i].1 == *new_hash)
            },
            None => true,
        }
    }
}

} // verus!
