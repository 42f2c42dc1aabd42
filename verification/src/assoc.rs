use vstd::prelude::*;

verus! {

// Tables keyed by strings are kept as vectors of pairs in insertion order,
// with pairwise-distinct keys. The spec functions below describe such a
// table; the executable helpers search it.

/// The table holds an entry whose key reads `k`.
pub open spec fn has_key<V>(s: Seq<(String, V)>, k: Seq<char>) -> bool {
    exists|i: int| 0 <= i < s.len() && s[i].0@ == k
}

/// The index of an entry whose key reads `k` (unique when keys are distinct).
pub open spec fn index_of_key<V>(s: Seq<(String, V)>, k: Seq<char>) -> int {
    choose|i: int| 0 <= i < s.len() && s[i].0@ == k
}

/// The value stored under key `k`.
pub open spec fn value_of<V>(s: Seq<(String, V)>, k: Seq<char>) -> V {
    s[index_of_key(s, k)].1
}

/// No two entries share a key.
pub open spec fn unique_keys<V>(s: Seq<(String, V)>) -> bool {
    forall|i: int, j: int| 0 <= i < j < s.len() ==> s[i].0@ != s[j].0@
}

/// With distinct keys, the entry at `i` is the one that `index_of_key` and
/// `value_of` describe for its own key.
pub proof fn lemma_key_at<V>(s: Seq<(String, V)>, i: int)
    requires
        unique_keys(s),
        0 <= i < s.len(),
    ensures
        has_key(s, s[i].0@),
        index_of_key(s, s[i].0@) == i,
        value_of(s, s[i].0@) == s[i].1,
{
    assert(has_key(s, s[i].0@));
    let j = index_of_key(s, s[i].0@);
    if j != i {
        if j < i {
            assert(s[j].0@ != s[i].0@);
        } else {
            assert(s[i].0@ != s[j].0@);
        }
    }
}

/// Finds the first entry whose key equals `key`.
pub fn find_key<V>(entries: &Vec<(String, V)>, key: &String) -> (r: Option<usize>)
    ensures
        match r {
            Some(i) => i < entries@.len() && entries@[i as int].0@ == key@,
            None => !has_key(entries@, key@),
        },
{
    let n = entries.len();
    let mut i: usize = 0;
    while i < n
        invariant
            n == entries@.len(),
            i <= n,
            forall|j: int| 0 <= j < i ==> entries@[j].0@ != key@,
        decreases n - i,
    {
        if entries[i].0 == *key {
            return Some(i);
        }
        i = i + 1;
    }
    None
}

// A vector of strings read as a collection of names or identities.

/// Some element of the vector reads `x`.
pub open spec fn contains_str(s: Seq<String>, x: Seq<char>) -> bool {
    exists|i: int| 0 <= i < s.len() && s[i]@ == x
}

/// No two elements read the same.
pub open spec fn distinct_strs(s: Seq<String>) -> bool {
    forall|i: int, j: int| 0 <= i < j < s.len() ==> s[i]@ != s[j]@
}

/// Membership test on a vector of strings.
pub fn vec_contains_string(v: &Vec<String>, x: &String) -> (r: bool)
    ensures
        r == contains_str(v@, x@),
{
    let n = v.len();
    let mut i: usize = 0;
    while i < n
        invariant
            n == v@.len(),
            i <= n,
            forall|j: int| 0 <= j < i ==> v@[j]@ != x@,
        decreases n - i,
    {
        if v[i] == *x {
            return true;
        }
        i = i + 1;
    }
    false
}

/// Appends `x` unless an equal string is already present.
pub fn push_if_absent(v: &mut Vec<String>, x: String)
    ensures
        contains_str(old(v)@, x@) ==> *final(v) == *old(v),
        !contains_str(old(v)@, x@) ==> final(v)@ == old(v)@.push(x),
        forall|y: Seq<char>| contains_str(final(v)@, y) == (contains_str(old(v)@, y) || y == x@),
        distinct_strs(old(v)@) ==> distinct_strs(final(v)@),
{
    if !vec_contains_string(v, &x) {
        let ghost oldv = v@;
        v.push(x);
        assert forall|y: Seq<char>| contains_str(v@, y) == (contains_str(oldv, y) || y == x@) by {
            if contains_str(oldv, y) {
                let i = choose|i: int| 0 <= i < oldv.len() && oldv[i]@ == y;
                assert(v@[i]@ == y);
            }
            if contains_str(v@, y) {
                let i = choose|i: int| 0 <= i < v@.len() && v@[i]@ == y;
                if i < oldv.len() {
                    assert(contains_str(oldv, y));
                }
            }
            assert(v@[v@.len() - 1]@ == x@);
        }
    }
}

/// A copy of the vector, equal element by element.
pub fn clone_string_vec(v: &Vec<String>) -> (r: Vec<String>)
    ensures
        r@ == v@,
{
    let n = v.len();
    let mut r: Vec<String> = Vec::new();
    let mut i: usize = 0;
    while i < n
        invariant
            n == v@.len(),
            i <= n,
            r@ == v@.subrange(0, i as int),
        decreases n - i,
    {
        r.push(v[i].clone());
        assert(r@ =~= v@.subrange(0, i as int + 1));
        i = i + 1;
    }
    assert(r@ =~= v@);
    r
}

/// The elements of `v` that are not in `del`, in their original order.
pub fn retain_not_in(v: &Vec<String>, del: &Vec<String>) -> (r: Vec<String>)
    ensures
        forall|y: Seq<char>|
            contains_str(r@, y) == (contains_str(v@, y) && !contains_str(del@, y)),
        distinct_strs(v@) ==> distinct_strs(r@),
        forall|i: int|
            0 <= i < r@.len() ==> contains_str(v@, r@[i]@) && !contains_str(del@, r@[i]@),
{
    let n = v.len();
    let mut r: Vec<String> = Vec::new();
    let mut i: usize = 0;
    while i < n
        invariant
            n == v@.len(),
            i <= n,
            forall|y: Seq<char>|
                contains_str(r@, y) == (exists|j: int|
                    0 <= j < i && v@[j]@ == y && !contains_str(del@, y)),
            distinct_strs(v@) ==> distinct_strs(r@),
            forall|k: int|
                0 <= k < r@.len() ==> contains_str(v@, r@[k]@) && !contains_str(del@, r@[k]@),
        decreases n - i,
    {
        let ghost oldr = r@;
        if !vec_contains_string(del, &v[i]) {
            proof {
                if distinct_strs(v@) && contains_str(oldr, v@[i as int]@) {
                    let j = choose|j: int|
                        0 <= j < i && v@[j]@ == v@[i as int]@ && !contains_str(del@, v@[i as int]@);
                    assert(v@[j]@ != v@[i as int]@);
                }
            }
            r.push(v[i].clone());
            proof {
                if distinct_strs(v@) {
                    assert forall|k1: int, k2: int|
                        0 <= k1 < k2 < r@.len() implies r@[k1]@ != r@[k2]@ by {
                        if k2 == r@.len() - 1 {
                            assert(!contains_str(oldr, r@[k2]@));
                            assert(oldr[k1]@ != r@[k2]@);
                        } else {
                            assert(oldr[k1]@ != oldr[k2]@);
                        }
                    }
                }
            }
            assert forall|y: Seq<char>|
                contains_str(r@, y) == (exists|j: int|
                    0 <= j < i + 1 && v@[j]@ == y && !contains_str(del@, y)) by {
                if contains_str(r@, y) {
                    let k = choose|k: int| 0 <= k < r@.len() && r@[k]@ == y;
                    if k < oldr.len() {
                        assert(contains_str(oldr, y));
                    } else {
                        assert(v@[i as int]@ == y);
                    }
                }
                if exists|j: int| 0 <= j < i + 1 && v@[j]@ == y && !contains_str(del@, y) {
                    let j = choose|j: int|
                        0 <= j < i + 1 && v@[j]@ == y && !contains_str(del@, y);
                    if j < i {
                        assert(contains_str(oldr, y));
                        let k = choose|k: int| 0 <= k < oldr.len() && oldr[k]@ == y;
                        assert(r@[k]@ == y);
                    } else {
                        assert(r@[r@.len() - 1]@ == y);
                    }
                }
            }
        } else {
            assert forall|y: Seq<char>|
                contains_str(r@, y) == (exists|j: int|
                    0 <= j < i + 1 && v@[j]@ == y && !contains_str(del@, y)) by {
                if exists|j: int| 0 <= j < i + 1 && v@[j]@ == y && !contains_str(del@, y) {
                    let j = choose|j: int|
                        0 <= j < i + 1 && v@[j]@ == y && !contains_str(del@, y);
                    if j == i {
                        assert(contains_str(del@, v@[i as int]@));
                    }
                }
            }
        }
        i = i + 1;
    }
    assert forall|y: Seq<char>|
        contains_str(r@, y) == (contains_str(v@, y) && !contains_str(del@, y)) by {
        if contains_str(v@, y) && !contains_str(del@, y) {
            let j = choose|j: int| 0 <= j < v@.len() && v@[j]@ == y;
            assert(0 <= j < n && v@[j]@ == y && !contains_str(del@, y));
        }
    }
    r
}

/// Splits `v` into the elements outside `del` (`kept`) and those inside it
/// (`dropped`), both in their original order.
pub fn partition_by(v: &Vec<String>, del: &Vec<String>) -> (r: (Vec<String>, Vec<String>))
    ensures
        forall|y: Seq<char>|
            contains_str(r.0@, y) == (contains_str(v@, y) && !contains_str(del@, y)),
        forall|y: Seq<char>|
            contains_str(r.1@, y) == (contains_str(v@, y) && contains_str(del@, y)),
        distinct_strs(v@) ==> distinct_strs(r.0@),
        distinct_strs(v@) ==> distinct_strs(r.1@),
{
    let n = v.len();
    let mut kept: Vec<String> = Vec::new();
    let mut dropped: Vec<String> = Vec::new();
    let mut i: usize = 0;
    while i < n
        invariant
            n == v@.len(),
            i <= n,
            forall|y: Seq<char>|
                contains_str(kept@, y) == (exists|j: int|
                    0 <= j < i && v@[j]@ == y && !contains_str(del@, y)),
            forall|y: Seq<char>|
                contains_str(dropped@, y) == (exists|j: int|
                    0 <= j < i && v@[j]@ == y && contains_str(del@, y)),
            distinct_strs(v@) ==> distinct_strs(kept@),
            distinct_strs(v@) ==> distinct_strs(dropped@),
        decreases n - i,
    {
        let ghost oldk = kept@;
        let ghost oldd = dropped@;
        let is_del = vec_contains_string(del, &v[i]);
        if is_del {
            proof {
                if distinct_strs(v@) && contains_str(oldd, v@[i as int]@) {
                    let j = choose|j: int|
                        0 <= j < i && v@[j]@ == v@[i as int]@ && contains_str(del@, v@[i as int]@);
                    assert(v@[j]@ != v@[i as int]@);
                }
            }
            dropped.push(v[i].clone());
            proof {
                assert forall|y: Seq<char>|
                    contains_str(dropped@, y) == (exists|j: int|
                        0 <= j < i + 1 && v@[j]@ == y && contains_str(del@, y)) by {
                    if contains_str(dropped@, y) {
                        let k = choose|k: int| 0 <= k < dropped@.len() && dropped@[k]@ == y;
                        if k < oldd.len() {
                            assert(contains_str(oldd, y));
                        } else {
                            assert(v@[i as int]@ == y);
                        }
                    }
                    if exists|j: int| 0 <= j < i + 1 && v@[j]@ == y && contains_str(del@, y) {
                        let j = choose|j: int|
                            0 <= j < i + 1 && v@[j]@ == y && contains_str(del@, y);
                        if j < i {
                            assert(contains_str(oldd, y));
                            let k = choose|k: int| 0 <= k < oldd.len() && oldd[k]@ == y;
                            assert(dropped@[k]@ == y);
                        } else {
                            assert(dropped@[dropped@.len() - 1]@ == y);
                        }
                    }
                }
                assert forall|y: Seq<char>|
                    contains_str(kept@, y) == (exists|j: int|
                        0 <= j < i + 1 && v@[j]@ == y && !contains_str(del@, y)) by {
                    if exists|j: int| 0 <= j < i + 1 && v@[j]@ == y && !contains_str(del@, y) {
                        let j = choose|j: int|
                            0 <= j < i + 1 && v@[j]@ == y && !contains_str(del@, y);
                        if j == i {
                            assert(contains_str(del@, v@[i as int]@));
                        }
                    }
                }
                if distinct_strs(v@) {
                    assert forall|k1: int, k2: int|
                        0 <= k1 < k2 < dropped@.len() implies dropped@[k1]@ != dropped@[k2]@ by {
                        if k2 == dropped@.len() - 1 {
                            assert(!contains_str(oldd, dropped@[k2]@));
                            assert(oldd[k1]@ != dropped@[k2]@);
                        } else {
                            assert(oldd[k1]@ != oldd[k2]@);
                        }
                    }
                }
            }
        } else {
            proof {
                if distinct_strs(v@) && contains_str(oldk, v@[i as int]@) {
                    let j = choose|j: int|
                        0 <= j < i && v@[j]@ == v@[i as int]@ && !contains_str(del@, v@[i as int]@);
                    assert(v@[j]@ != v@[i as int]@);
                }
            }
            kept.push(v[i].clone());
            proof {
                assert forall|y: Seq<char>|
                    contains_str(kept@, y) == (exists|j: int|
                        0 <= j < i + 1 && v@[j]@ == y && !contains_str(del@, y)) by {
                    if contains_str(kept@, y) {
                        let k = choose|k: int| 0 <= k < kept@.len() && kept@[k]@ == y;
                        if k < oldk.len() {
                            assert(contains_str(oldk, y));
                        } else {
                            assert(v@[i as int]@ == y);
                        }
                    }
                    if exists|j: int| 0 <= j < i + 1 && v@[j]@ == y && !contains_str(del@, y) {
                        let j = choose|j: int|
                            0 <= j < i + 1 && v@[j]@ == y && !contains_str(del@, y);
                        if j < i {
                            assert(contains_str(oldk, y));
                            let k = choose|k: int| 0 <= k < oldk.len() && oldk[k]@ == y;
                            assert(kept@[k]@ == y);
                        } else {
                            assert(kept@[kept@.len() - 1]@ == y);
                        }
                    }
                }
                assert forall|y: Seq<char>|
                    contains_str(dropped@, y) == (exists|j: int|
                        0 <= j < i + 1 && v@[j]@ == y && contains_str(del@, y)) by {
                    if exists|j: int| 0 <= j < i + 1 && v@[j]@ == y && contains_str(del@, y) {
                        let j = choose|j: int|
                            0 <= j < i + 1 && v@[j]@ == y && contains_str(del@, y);
                        if j == i {
                            assert(!contains_str(del@, v@[i as int]@));
                        }
                    }
                }
                if distinct_strs(v@) {
                    assert forall|k1: int, k2: int|
                        0 <= k1 < k2 < kept@.len() implies kept@[k1]@ != kept@[k2]@ by {
                        if k2 == kept@.len() - 1 {
                            assert(!contains_str(oldk, kept@[k2]@));
                            assert(oldk[k1]@ != kept@[k2]@);
                        } else {
                            assert(oldk[k1]@ != oldk[k2]@);
                        }
                    }
                }
            }
        }
        i = i + 1;
    }
    proof {
        assert forall|y: Seq<char>|
            contains_str(kept@, y) == (contains_str(v@, y) && !contains_str(del@, y)) by {
            if contains_str(v@, y) && !contains_str(del@, y) {
                let j = choose|j: int| 0 <= j < v@.len() && v@[j]@ == y;
                assert(0 <= j < n && v@[j]@ == y && !contains_str(del@, y));
            }
        }
        assert forall|y: Seq<char>|
            contains_str(dropped@, y) == (contains_str(v@, y) && contains_str(del@, y)) by {
            if contains_str(v@, y) && contains_str(del@, y) {
                let j = choose|j: int| 0 <= j < v@.len() && v@[j]@ == y;
                assert(0 <= j < n && v@[j]@ == y && contains_str(del@, y));
            }
        }
    }
    (kept, dropped)
}

} // verus!
