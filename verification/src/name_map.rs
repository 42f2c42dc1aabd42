use vstd::prelude::*;

use crate::assoc::{
    contains_str, distinct_strs, find_key, has_key, index_of_key, unique_keys, value_of,
    clone_string_vec, push_if_absent,
};

verus! {

// A name map is a table from a name to the identities bound to that name,
// kept as a vector of (name, identities) pairs with distinct keys and,
// within each entry, pairwise-distinct identities.

/// Identity `h` is bound to name `n` in the map.
pub open spec fn binds(m: Seq<(String, Vec<String>)>, n: Seq<char>, h: Seq<char>) -> bool {
    has_key(m, n) && contains_str(value_of(m, n)@, h)
}

/// Every entry holds pairwise-distinct identities.
pub open spec fn lists_distinct(m: Seq<(String, Vec<String>)>) -> bool {
    forall|i: int| 0 <= i < m.len() ==> distinct_strs(#[trigger] m[i].1@)
}

/// A well-formed name map: distinct keys, distinct identities per entry.
pub open spec fn name_map_wf(m: Seq<(String, Vec<String>)>) -> bool {
    unique_keys(m) && lists_distinct(m)
}

/// No entry has an empty identity list: a name is present exactly when
/// something is bound to it.
pub open spec fn no_empty_entries(m: Seq<(String, Vec<String>)>) -> bool {
    forall|i: int| 0 <= i < m.len() ==> (#[trigger] m[i].1@).len() > 0
}

/// In a map without empty entries, a present name binds at least its first
/// stored identity.
pub proof fn lemma_has_key_binds(m: Seq<(String, Vec<String>)>, n: Seq<char>)
    requires
        no_empty_entries(m),
        has_key(m, n),
    ensures
        binds(m, n, value_of(m, n)@[0]@),
{
    let i = index_of_key(m, n);
    assert(m[i].1@.len() > 0);
    assert(contains_str(value_of(m, n)@, value_of(m, n)@[0]@));
}

/// Binds `id` to `name`, appending to an existing entry (unless already
/// bound) or creating a new one.
pub fn name_map_add(map: &mut Vec<(String, Vec<String>)>, name: &String, id: &String)
    requires
        name_map_wf(old(map)@),
        no_empty_entries(old(map)@),
    ensures
        name_map_wf(final(map)@),
        no_empty_entries(final(map)@),
        forall|n: Seq<char>, h: Seq<char>|
            #[trigger] binds(final(map)@, n, h) == (binds(old(map)@, n, h) || (n == name@ && h
                == id@)),
{
    let ghost oldm = map@;
    match find_key(map, name) {
        Some(i) => {
            let mut pair = map.remove(i);
            push_if_absent(&mut pair.1, id.clone());
            map.insert(i, pair);
            proof {
                crate::assoc::lemma_key_at(oldm, i as int);
                assert(map@ =~= oldm.update(i as int, map@[i as int]));
                crate::assoc::lemma_key_at(map@, i as int);
                assert forall|n: Seq<char>, h: Seq<char>| #[trigger] binds(map@, n, h) == (binds(
                    oldm,
                    n,
                    h,
                ) || (n == name@ && h == id@)) by {
                    if n == name@ {
                        assert(value_of(map@, n) == map@[i as int].1);
                        assert(value_of(oldm, n) == oldm[i as int].1);
                        assert(contains_str(map@[i as int].1@, h) == (contains_str(
                            oldm[i as int].1@,
                            h,
                        ) || h == id@));
                    } else {
                        if has_key(oldm, n) {
                            let j = index_of_key(oldm, n);
                            assert(map@[j].0@ == n);
                            crate::assoc::lemma_key_at(map@, j);
                        }
                        if has_key(map@, n) {
                            let j = index_of_key(map@, n);
                            assert(oldm[j].0@ == n);
                            crate::assoc::lemma_key_at(oldm, j);
                        }
                    }
                }
            }
        },
        None => {
            let mut ids: Vec<String> = Vec::new();
            ids.push(id.clone());
            map.push((name.clone(), ids));
            proof {
                crate::assoc::lemma_key_at(map@, map@.len() - 1);
                assert forall|n: Seq<char>, h: Seq<char>| #[trigger] binds(map@, n, h) == (binds(
                    oldm,
                    n,
                    h,
                ) || (n == name@ && h == id@)) by {
                    if n == name@ {
                        assert(!has_key(oldm, n));
                        assert(value_of(map@, n) == map@[map@.len() - 1].1);
                        assert(map@[map@.len() - 1].1@[0]@ == id@);
                        if contains_str(map@[map@.len() - 1].1@, h) {
                            assert(h == id@);
                        }
                    } else {
                        if has_key(oldm, n) {
                            let j = index_of_key(oldm, n);
                            assert(map@[j].0@ == n);
                            crate::assoc::lemma_key_at(map@, j);
                        }
                        if has_key(map@, n) {
                            let j = index_of_key(map@, n);
                            assert(j < oldm.len() && oldm[j].0@ == n);
                            crate::assoc::lemma_key_at(oldm, j);
                        }
                    }
                }
                assert(lists_distinct(map@)) by {
                    assert forall|i: int| 0 <= i < map@.len() implies distinct_strs(
                        #[trigger] map@[i].1@,
                    ) by {
                        if i < map@.len() - 1 {
                            assert(map@[i].1@ == oldm[i].1@);
                        }
                    }
                }
            }
        },
    }
}

/// The identities bound to `name`, or None when the map has no entry for it.
pub fn name_map_lookup(map: &Vec<(String, Vec<String>)>, name: &String) -> (r: Option<
    Vec<String>,
>)
    requires
        unique_keys(map@),
    ensures
        match r {
            Some(ids) => has_key(map@, name@) && ids@ == value_of(map@, name@)@ && (
            no_empty_entries(map@) ==> ids@.len() > 0),
            None => !has_key(map@, name@),
        },
{
    match find_key(map, name) {
        Some(i) => {
            proof {
                crate::assoc::lemma_key_at(map@, i as int);
            }
            Some(clone_string_vec(&map[i].1))
        },
        None => None,
    }
}

} // verus!
