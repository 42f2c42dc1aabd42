use vstd::prelude::*;
use vstd::string::StrSliceExecFns;

verus! {

/// A `String` with exactly the characters of `s`.
pub fn str_to_string(s: &str) -> (r: String)
    ensures
        r@ == s@,
{
    s.to_owned()
}

/// Character-wise equality of a `String` and a string slice.
pub fn string_eq_str(s: &String, t: &str) -> (r: bool)
    ensures
        r == (s@ == t@),
{
    let t2: String = t.to_owned();
    *s == t2
}

/// A `::` separator starts at position `p` of `s`.
pub open spec fn sep_at(s: Seq<char>, p: int) -> bool {
    0 <= p && p + 2 <= s.len() && s[p] == ':' && s[p + 1] == ':'
}

/// The position of the last `::` separator that starts below `i`, or -1.
pub open spec fn last_sep_below(s: Seq<char>, i: int) -> int
    decreases i,
{
    if i <= 0 {
        -1
    } else if sep_at(s, i - 1) {
        i - 1
    } else {
        last_sep_below(s, i - 1)
    }
}

/// What follows the last `::` of `s`; all of `s` when it has none.
pub open spec fn spec_last_segment(s: Seq<char>) -> Seq<char> {
    let p = last_sep_below(s, s.len() as int);
    if p >= 0 {
        s.subrange(p + 2, s.len() as int)
    } else {
        s
    }
}

/// The last `::`-separated segment of a path such as `a::b::c`.
pub fn last_segment(s: &String) -> (r: String)
    ensures
        r@ == spec_last_segment(s@),
{
    let st = s.as_str();
    let n = st.unicode_len();
    let mut found: Option<usize> = None;
    let mut i: usize = 0;
    while i < n
        invariant
            n == st@.len(),
            st@ == s@,
            i <= n,
            match found {
                Some(p) => p == last_sep_below(s@, i as int) && 0 <= last_sep_below(
                    s@,
                    i as int,
                ),
                None => last_sep_below(s@, i as int) == -1,
            },
        decreases n - i,
    {
        if i + 1 < n {
            let c0 = st.get_char(i);
            let c1 = st.get_char(i + 1);
            if c0 == ':' && c1 == ':' {
                found = Some(i);
            }
        }
        proof {
            assert(last_sep_below(s@, i + 1) == if sep_at(s@, i as int) {
                i as int
            } else {
                last_sep_below(s@, i as int)
            });
            if i + 1 >= n {
                assert(!sep_at(s@, i as int));
            }
        }
        i = i + 1;
    }
    match found {
        Some(p) => {
            proof {
                lemma_last_sep_is_sep(s@, n as int);
            }
            let seg = st.substring_char(p + 2, n);
            str_to_string(seg)
        },
        None => str_to_string(st),
    }
}

/// Where `last_sep_below` points at a position, a separator starts there.
proof fn lemma_last_sep_is_sep(s: Seq<char>, i: int)
    ensures
        last_sep_below(s, i) >= 0 ==> sep_at(s, last_sep_below(s, i)),
    decreases i,
{
    if i > 0 && !sep_at(s, i - 1) {
        lemma_last_sep_is_sep(s, i - 1);
    }
}

} // verus!
