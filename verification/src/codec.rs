use vstd::prelude::*;
use vstd::string::StrSliceExecFns;

use crate::assoc::{contains_str, distinct_strs, find_key, has_key, unique_keys};
use crate::dependency_resolver::DependencyResolver;
use crate::errors::ContextMeshError;
use crate::file_hashes::FileHashManager;
use crate::indexer::Indexer;
use crate::symbol::Symbol;
use crate::symbol_store::{graph_wf, SymbolStore};

verus! {

// The snapshot encoding: length-prefixed and little-endian throughout.
// Counts and numbers are 8-byte little-endian words; a string is its
// character count followed by one 4-byte little-endian scalar per character;
// a symbol is its six fields followed by its two identity lists; the index
// is its three tables, each a count followed by its entries in order. The
// in-memory tables are kept in insertion order, so saving the same index
// twice yields byte-identical snapshots.

/// The little-endian bytes of a 64-bit word.
pub open spec fn u64_le(v: u64) -> Seq<u8> {
    seq![
        (v as int % 256) as u8,
        (v as int / 256 % 256) as u8,
        (v as int / 0x10000 % 256) as u8,
        (v as int / 0x1000000 % 256) as u8,
        (v as int / 0x100000000 % 256) as u8,
        (v as int / 0x10000000000 % 256) as u8,
        (v as int / 0x1000000000000 % 256) as u8,
        (v as int / 0x100000000000000 % 256) as u8,
    ]
}

/// The word an 8-byte little-endian sequence denotes.
pub open spec fn le_val8(b: Seq<u8>) -> int {
    b[0] + 256 * (b[1] + 256 * (b[2] + 256 * (b[3] + 256 * (b[4] + 256 * (b[5] + 256 * (b[6] + 256
        * b[7]))))))
}

/// Decoding inverts encoding for 64-bit words.
pub proof fn lemma_u64_le_val(v: u64)
    ensures
        le_val8(u64_le(v)) == v as int,
{
    let x = v as int;
    let q1 = x / 256;
    let q2 = x / 0x10000;
    let q3 = x / 0x1000000;
    let q4 = x / 0x100000000;
    let q5 = x / 0x10000000000;
    let q6 = x / 0x1000000000000;
    let q7 = x / 0x100000000000000;
    vstd::arithmetic::div_mod::lemma_div_denominator(x, 256, 256);
    vstd::arithmetic::div_mod::lemma_div_denominator(x, 0x10000, 256);
    vstd::arithmetic::div_mod::lemma_div_denominator(x, 0x1000000, 256);
    vstd::arithmetic::div_mod::lemma_div_denominator(x, 0x100000000, 256);
    vstd::arithmetic::div_mod::lemma_div_denominator(x, 0x10000000000, 256);
    vstd::arithmetic::div_mod::lemma_div_denominator(x, 0x1000000000000, 256);
    assert(q1 / 256 == q2 && q2 / 256 == q3 && q3 / 256 == q4 && q4 / 256 == q5 && q5 / 256 == q6
        && q6 / 256 == q7);
    vstd::arithmetic::div_mod::lemma_fundamental_div_mod(x, 256);
    vstd::arithmetic::div_mod::lemma_fundamental_div_mod(q1, 256);
    vstd::arithmetic::div_mod::lemma_fundamental_div_mod(q2, 256);
    vstd::arithmetic::div_mod::lemma_fundamental_div_mod(q3, 256);
    vstd::arithmetic::div_mod::lemma_fundamental_div_mod(q4, 256);
    vstd::arithmetic::div_mod::lemma_fundamental_div_mod(q5, 256);
    vstd::arithmetic::div_mod::lemma_fundamental_div_mod(q6, 256);
    assert(q7 < 256) by {
        assert(x < 0x10000000000000000);
        vstd::arithmetic::div_mod::lemma_div_is_ordered(x, 0xffffffffffffffff, 0x100000000000000);
    }
    assert(q7 % 256 == q7) by {
        vstd::arithmetic::div_mod::lemma_small_mod(q7 as nat, 256);
    }
    assert(q6 % 256 + 256 * q7 == q6);
    assert(q5 % 256 + 256 * (q6 % 256 + 256 * q7) == q5);
    assert(q4 % 256 + 256 * (q5 % 256 + 256 * (q6 % 256 + 256 * q7)) == q4);
    assert(q3 % 256 + 256 * (q4 % 256 + 256 * (q5 % 256 + 256 * (q6 % 256 + 256 * q7))) == q3);
    assert(q2 % 256 + 256 * (q3 % 256 + 256 * (q4 % 256 + 256 * (q5 % 256 + 256 * (q6 % 256 + 256
        * q7)))) == q2);
    assert(q1 % 256 + 256 * (q2 % 256 + 256 * (q3 % 256 + 256 * (q4 % 256 + 256 * (q5 % 256 + 256
        * (q6 % 256 + 256 * q7))))) == q1);
    assert(x % 256 + 256 * (q1 % 256 + 256 * (q2 % 256 + 256 * (q3 % 256 + 256 * (q4 % 256 + 256 * (
    q5 % 256 + 256 * (q6 % 256 + 256 * q7)))))) == x);
}

/// The little-endian bytes of a 32-bit word.
pub open spec fn u32_le(v: u32) -> Seq<u8> {
    seq![
        (v as int % 256) as u8,
        (v as int / 256 % 256) as u8,
        (v as int / 0x10000 % 256) as u8,
        (v as int / 0x1000000 % 256) as u8,
    ]
}

/// The word a 4-byte little-endian sequence denotes.
pub open spec fn le_val4(b: Seq<u8>) -> int {
    b[0] + 256 * (b[1] + 256 * (b[2] + 256 * b[3]))
}

/// Decoding inverts encoding for 32-bit words.
pub proof fn lemma_u32_le_val(v: u32)
    ensures
        le_val4(u32_le(v)) == v as int,
{
    let x = v as int;
    assert(le_val4(u32_le(v)) == x) by {
        assert(x / 0x1000000 % 256 == x / 0x1000000) by {
            assert(x < 0x100000000);
            assert(x / 0x1000000 < 256);
        }
    }
}

/// Appends the 8 little-endian bytes of `v`.
pub fn push_u64(out: &mut Vec<u8>, v: u64)
    ensures
        final(out)@ == old(out)@ + u64_le(v),
{
    let ghost o = out@;
    out.push((v % 256) as u8);
    out.push((v / 256 % 256) as u8);
    out.push((v / 0x10000 % 256) as u8);
    out.push((v / 0x1000000 % 256) as u8);
    out.push((v / 0x100000000 % 256) as u8);
    out.push((v / 0x10000000000 % 256) as u8);
    out.push((v / 0x1000000000000 % 256) as u8);
    out.push((v / 0x100000000000000 % 256) as u8);
    proof {
        assert(out@ =~= o + u64_le(v));
    }
}

/// Appends the 4 little-endian bytes of `v`.
pub fn push_u32(out: &mut Vec<u8>, v: u32)
    ensures
        final(out)@ == old(out)@ + u32_le(v),
{
    let ghost o = out@;
    out.push((v % 256) as u8);
    out.push((v / 256 % 256) as u8);
    out.push((v / 0x10000 % 256) as u8);
    out.push((v / 0x1000000 % 256) as u8);
    proof {
        assert(out@ =~= o + u32_le(v));
    }
}

/// Reads an 8-byte little-endian word.
pub fn read_u64(bytes: &Vec<u8>, pos: usize) -> (r: Option<(u64, usize)>)
    ensures
        match r {
            Some(vp) => pos + 8 <= bytes@.len() && vp.1 == pos + 8 && vp.0 as int == le_val8(
                bytes@.subrange(pos as int, pos + 8),
            ),
            None => pos + 8 > bytes@.len(),
        },
{
    if bytes.len() < 8 || pos > bytes.len() - 8 {
        return None;
    }
    let b0 = bytes[pos] as u64;
    let b1 = bytes[pos + 1] as u64;
    let b2 = bytes[pos + 2] as u64;
    let b3 = bytes[pos + 3] as u64;
    let b4 = bytes[pos + 4] as u64;
    let b5 = bytes[pos + 5] as u64;
    let b6 = bytes[pos + 6] as u64;
    let b7 = bytes[pos + 7] as u64;
    let v = ((((((b7 * 256 + b6) * 256 + b5) * 256 + b4) * 256 + b3) * 256 + b2) * 256 + b1) * 256
        + b0;
    proof {
        let s = bytes@.subrange(pos as int, pos + 8);
        assert(s[0] == bytes@[pos as int] && s[1] == bytes@[pos + 1] && s[2] == bytes@[pos + 2]
            && s[3] == bytes@[pos + 3] && s[4] == bytes@[pos + 4] && s[5] == bytes@[pos + 5] && s[6]
            == bytes@[pos + 6] && s[7] == bytes@[pos + 7]);
    }
    Some((v, pos + 8))
}

/// Reads a 4-byte little-endian word.
pub fn read_u32(bytes: &Vec<u8>, pos: usize) -> (r: Option<(u32, usize)>)
    ensures
        match r {
            Some(vp) => pos + 4 <= bytes@.len() && vp.1 == pos + 4 && vp.0 as int == le_val4(
                bytes@.subrange(pos as int, pos + 4),
            ),
            None => pos + 4 > bytes@.len(),
        },
{
    if bytes.len() < 4 || pos > bytes.len() - 4 {
        return None;
    }
    let b0 = bytes[pos] as u32;
    let b1 = bytes[pos + 1] as u32;
    let b2 = bytes[pos + 2] as u32;
    let b3 = bytes[pos + 3] as u32;
    let v = ((b3 * 256 + b2) * 256 + b1) * 256 + b0;
    proof {
        let s = bytes@.subrange(pos as int, pos + 4);
        assert(s[0] == bytes@[pos as int] && s[1] == bytes@[pos + 1] && s[2] == bytes@[pos + 2]
            && s[3] == bytes@[pos + 3]);
    }
    Some((v, pos + 4))
}

/// The encoding of a character sequence: one 4-byte scalar per character.
pub open spec fn chars_le(s: Seq<char>) -> Seq<u8>
    decreases s.len(),
{
    if s.len() == 0 {
        Seq::<u8>::empty()
    } else {
        chars_le(s.drop_last()) + u32_le(s.last() as u32)
    }
}

/// The encoding of a string: character count, then the characters.
pub open spec fn str_le(s: Seq<char>) -> Seq<u8> {
    u64_le(s.len() as u64) + chars_le(s)
}

/// Relies on std's FromIterator for String over characters: collecting
/// exactly the characters of the vector.
#[verifier::external_body]
fn string_from_chars(v: &Vec<char>) -> (r: String)
    ensures
        r@ == v@,
{
    v.iter().collect()
}

/// Relies on char::from_u32: Some exactly on Unicode scalar values (at most
/// 0x10FFFF and not a surrogate), returning the character with that value.
pub assume_specification[ char::from_u32 ](v: u32) -> (r: Option<char>)
    ensures
        r is Some <==> vstd::utf8::is_scalar(v),
        r matches Some(c) ==> c as u32 == v,
;

/// Appends the encoding of `s`.
pub fn push_string(out: &mut Vec<u8>, s: &String)
    ensures
        final(out)@ == old(out)@ + str_le(s@),
{
    let ghost o = out@;
    let st = s.as_str();
    let n = st.unicode_len();
    push_u64(out, n as u64);
    let mut i: usize = 0;
    while i < n
        invariant
            n == st@.len(),
            st@ == s@,
            i <= n,
            out@ == o + u64_le(n as u64) + chars_le(s@.take(i as int)),
        decreases n - i,
    {
        let c = st.get_char(i);
        push_u32(out, c as u32);
        proof {
            assert(s@.take(i + 1).drop_last() =~= s@.take(i as int));
            assert(s@.take(i + 1).last() == s@[i as int]);
            assert(chars_le(s@.take(i + 1)) == chars_le(s@.take(i as int)) + u32_le(
                s@[i as int] as u32,
            ));
            assert(out@ =~= o + u64_le(n as u64) + chars_le(s@.take(i + 1)));
        }
        i = i + 1;
    }
    proof {
        assert(s@.take(n as int) =~= s@);
    }
}

/// The encoding `e` sits at position `pos` of `b`.
pub open spec fn encodes_at(b: Seq<u8>, pos: int, e: Seq<u8>) -> bool {
    0 <= pos && pos + e.len() <= b.len() && b.subrange(pos, pos + e.len()) == e
}

/// The character block of a string encoding is 4 bytes per character.
pub proof fn lemma_chars_le_len(s: Seq<char>)
    ensures
        chars_le(s).len() == 4 * s.len(),
    decreases s.len(),
{
    if s.len() > 0 {
        lemma_chars_le_len(s.drop_last());
    }
}

/// The i-th 4-byte chunk of a character block encodes the i-th character.
pub proof fn lemma_chars_le_chunk(s: Seq<char>, i: int)
    requires
        0 <= i < s.len(),
    ensures
        chars_le(s).subrange(4 * i, 4 * i + 4) == u32_le(s[i] as u32),
    decreases s.len(),
{
    lemma_chars_le_len(s);
    lemma_chars_le_len(s.drop_last());
    if i == s.len() - 1 {
        assert(chars_le(s).subrange(4 * i, 4 * i + 4) =~= u32_le(s.last() as u32));
    } else {
        lemma_chars_le_chunk(s.drop_last(), i);
        assert(chars_le(s).subrange(4 * i, 4 * i + 4) =~= chars_le(s.drop_last()).subrange(
            4 * i,
            4 * i + 4,
        ));
    }
}

/// A subrange of a subrange reads directly off the underlying bytes.
pub proof fn lemma_sub_of_sub(b: Seq<u8>, pos: int, l: int, a: int, c: int)
    requires
        0 <= pos,
        0 <= a <= c <= l,
        pos + l <= b.len(),
    ensures
        b.subrange(pos, pos + l).subrange(a, c) == b.subrange(pos + a, pos + c),
{
    assert(b.subrange(pos, pos + l).subrange(a, c) =~= b.subrange(pos + a, pos + c));
}

/// A division bound from a multiplied one.
proof fn lemma_mul_le_div(n: int, m: int, len: int)
    requires
        m >= 1,
        0 <= n,
        n * m <= len,
    ensures
        n <= len / m,
{
    assert(n <= len / m) by (nonlinear_arith)
        requires
            m >= 1,
            0 <= n,
            n * m <= len,
    ;
}

/// What a string-encoding hypothesis gives, piece by piece: the length
/// field, and one 4-byte chunk per character.
proof fn lemma_str_hyp_parts(b: Seq<u8>, pos: int, s0: Seq<char>)
    requires
        encodes_at(b, pos, str_le(s0)),
    ensures
        str_le(s0).len() == 8 + 4 * s0.len(),
        b.subrange(pos, pos + 8) == u64_le(s0.len() as u64),
        forall|i: int|
            0 <= i < s0.len() ==> b.subrange(pos + 8 + 4 * i, pos + 8 + 4 * i + 4) == u32_le(
                (#[trigger] s0[i]) as u32,
            ),
{
    lemma_chars_le_len(s0);
    let l = str_le(s0).len() as int;
    lemma_sub_of_sub(b, pos, l, 0, 8);
    assert(str_le(s0).subrange(0, 8) =~= u64_le(s0.len() as u64));
    assert forall|i: int|
        0 <= i < s0.len() implies b.subrange(pos + 8 + 4 * i, pos + 8 + 4 * i + 4) == u32_le(
        (#[trigger] s0[i]) as u32,
    ) by {
        lemma_sub_of_sub(b, pos, l, 8 + 4 * i, 8 + 4 * i + 4);
        lemma_chars_le_chunk(s0, i);
        assert(str_le(s0).subrange(8 + 4 * i, 8 + 4 * i + 4) =~= chars_le(s0).subrange(
            4 * i,
            4 * i + 4,
        ));
    }
}

/// Reads one string; the consumed range is exactly the encoding of the
/// returned string, and a string encoding sitting at `pos` is always read
/// back as exactly that string.
#[verifier::rlimit(100)]
#[verifier::spinoff_prover]
pub fn read_string(bytes: &Vec<u8>, pos: usize) -> (r: Option<(String, usize)>)
    ensures
        match r {
            Some(sp) => pos <= sp.1 <= bytes@.len() && bytes@.subrange(pos as int, sp.1 as int)
                == str_le(sp.0@),
            None => true,
        },
        forall|s0: Seq<char>|
            #[trigger] encodes_at(bytes@, pos as int, str_le(s0)) ==> (r matches Some(sp) && sp.0@
                == s0 && sp.1 == pos + str_le(s0).len()),
{
    let blen = bytes.len();
    let (n64, mut p) = match read_u64(bytes, pos) {
        Some(vp) => vp,
        None => {
            proof {
                assert forall|s0: Seq<char>|
                    !#[trigger] encodes_at(bytes@, pos as int, str_le(s0)) by {
                    if encodes_at(bytes@, pos as int, str_le(s0)) {
                        lemma_str_hyp_parts(bytes@, pos as int, s0);
                    }
                }
            }
            return None;
        },
    };
    if n64 > usize::MAX as u64 {
        proof {
            assert forall|s0: Seq<char>|
                !#[trigger] encodes_at(bytes@, pos as int, str_le(s0)) by {
                if encodes_at(bytes@, pos as int, str_le(s0)) {
                    lemma_str_hyp_parts(bytes@, pos as int, s0);
                    lemma_u64_le_val(s0.len() as u64);
                }
            }
        }
        return None;
    }
    let n = n64 as usize;
    if n > blen / 4 {
        proof {
            assert forall|s0: Seq<char>|
                !#[trigger] encodes_at(bytes@, pos as int, str_le(s0)) by {
                if encodes_at(bytes@, pos as int, str_le(s0)) {
                    lemma_str_hyp_parts(bytes@, pos as int, s0);
                    lemma_u64_le_val(s0.len() as u64);
                    lemma_mul_le_div(s0.len() as int, 4, blen as int);
                }
            }
        }
        return None;
    }
    let mut cs: Vec<char> = Vec::new();
    let mut i: usize = 0;
    proof {
        assert forall|s0: Seq<char>|
            #[trigger] encodes_at(bytes@, pos as int, str_le(s0)) implies (n == s0.len() && cs@
            == s0.take(0)) by {
            lemma_str_hyp_parts(bytes@, pos as int, s0);
            lemma_u64_le_val(s0.len() as u64);
            assert(cs@ =~= s0.take(0));
        }
    }
    while i < n
        invariant
            i <= n,
            cs@.len() == i,
            pos + 8 <= bytes@.len(),
            blen == bytes@.len(),
            p == pos + 8 + 4 * i,
            p <= bytes@.len(),
            n64 as int == le_val8(bytes@.subrange(pos as int, pos + 8)),
            n == n64 as int,
            n <= bytes@.len() / 4,
            bytes@.subrange(pos + 8, p as int) == chars_le(cs@),
            forall|s0: Seq<char>|
                #[trigger] encodes_at(bytes@, pos as int, str_le(s0)) ==> (n == s0.len() && cs@
                    == s0.take(i as int)),
        decreases n - i,
    {
        let ghost pre_i = i as int;
        let (w, p2) = match read_u32(bytes, p) {
            Some(vp) => vp,
            None => {
                proof {
                    assert forall|s0: Seq<char>|
                        !#[trigger] encodes_at(bytes@, pos as int, str_le(s0)) by {
                        if encodes_at(bytes@, pos as int, str_le(s0)) {
                            lemma_str_hyp_parts(bytes@, pos as int, s0);
                        }
                    }
                }
                return None;
            },
        };
        let c = match char::from_u32(w) {
            Some(c) => c,
            None => {
                proof {
                    assert forall|s0: Seq<char>|
                        !#[trigger] encodes_at(bytes@, pos as int, str_le(s0)) by {
                        if encodes_at(bytes@, pos as int, str_le(s0)) {
                            lemma_str_hyp_parts(bytes@, pos as int, s0);
                            lemma_u32_le_val(s0[pre_i] as u32);
                            vstd::utf8::char_is_scalar(s0[pre_i]);
                        }
                    }
                }
                return None;
            },
        };
        let ghost oldcs = cs@;
        cs.push(c);
        proof {
            assert(cs@.drop_last() =~= oldcs);
            assert(cs@.last() == c);
            assert(c as u32 == w);
            assert(u32_le(c as u32) =~= bytes@.subrange(p as int, p + 4)) by {
                lemma_u32_le_val(c as u32);
                lemma_le4_inverse(bytes@.subrange(p as int, p + 4), c as u32);
            }
            assert(chars_le(cs@) == chars_le(oldcs) + u32_le(c as u32));
            assert(bytes@.subrange(pos + 8, p + 4) =~= bytes@.subrange(pos + 8, p as int)
                + bytes@.subrange(p as int, p + 4));
            assert forall|s0: Seq<char>|
                #[trigger] encodes_at(bytes@, pos as int, str_le(s0)) implies (n == s0.len() && cs@
                == s0.take(pre_i + 1)) by {
                lemma_str_hyp_parts(bytes@, pos as int, s0);
                lemma_u32_le_val(s0[pre_i] as u32);
                assert(w == s0[pre_i] as u32);
                vstd::utf8::char_u32_cast(c, c as u32);
                vstd::utf8::char_u32_cast(s0[pre_i], s0[pre_i] as u32);
                assert(c == s0[pre_i]);
                assert(cs@ =~= s0.take(pre_i + 1));
            }
        }
        p = p2;
        i = i + 1;
    }
    let s = string_from_chars(&cs);
    proof {
        assert(u64_le(s@.len() as u64) =~= bytes@.subrange(pos as int, pos + 8)) by {
            lemma_u64_le_val(s@.len() as u64);
            lemma_le8_inverse(bytes@.subrange(pos as int, pos + 8), s@.len() as u64);
        }
        assert(bytes@.subrange(pos as int, p as int) =~= bytes@.subrange(pos as int, pos + 8)
            + bytes@.subrange(pos + 8, p as int));
        assert(bytes@.subrange(pos as int, p as int) =~= str_le(s@));
        assert forall|s0: Seq<char>|
            #[trigger] encodes_at(bytes@, pos as int, str_le(s0)) implies (s@ == s0 && p == pos
            + str_le(s0).len()) by {
            lemma_str_hyp_parts(bytes@, pos as int, s0);
            assert(s@ =~= s0) by {
                assert(cs@ == s0.take(n as int));
                assert(s0.take(n as int) =~= s0);
            }
        }
    }
    Some((s, p))
}

/// The encoding of a list of strings, one after another.
pub open spec fn strs_le(v: Seq<String>) -> Seq<u8>
    decreases v.len(),
{
    if v.len() == 0 {
        Seq::<u8>::empty()
    } else {
        strs_le(v.drop_last()) + str_le(v.last()@)
    }
}

/// The encoding of a string vector: count, then the strings.
pub open spec fn strvec_le(v: Seq<String>) -> Seq<u8> {
    u64_le(v.len() as u64) + strs_le(v)
}

/// Cumulative offset of the i-th string inside a string-list block.
pub open spec fn strs_off(v: Seq<String>, i: int) -> int {
    strs_le(v.take(i)).len() as int
}

/// A string-list block is at least 8 bytes per string.
pub proof fn lemma_strs_le_min(v: Seq<String>)
    ensures
        strs_le(v).len() >= 8 * v.len(),
    decreases v.len(),
{
    if v.len() > 0 {
        lemma_strs_le_min(v.drop_last());
        lemma_chars_le_len(v.last()@);
    }
}

/// The i-th slice of a string-list block encodes the i-th string.
pub proof fn lemma_strs_le_element(v: Seq<String>, i: int)
    requires
        0 <= i < v.len(),
    ensures
        0 <= strs_off(v, i),
        strs_off(v, i + 1) == strs_off(v, i) + str_le(v[i]@).len(),
        strs_off(v, i + 1) <= strs_le(v).len(),
        strs_le(v).subrange(strs_off(v, i), strs_off(v, i + 1)) == str_le(v[i]@),
    decreases v.len(),
{
    if i == v.len() - 1 {
        assert(v.take(i) =~= v.drop_last());
        assert(v.take(i + 1) =~= v);
        assert(strs_le(v).subrange(strs_off(v, i), strs_off(v, i + 1)) =~= str_le(v[i]@));
    } else {
        lemma_strs_le_element(v.drop_last(), i);
        assert(v.drop_last().take(i) =~= v.take(i));
        assert(v.drop_last().take(i + 1) =~= v.take(i + 1));
        assert(strs_le(v).subrange(strs_off(v, i), strs_off(v, i + 1)) =~= strs_le(
            v.drop_last(),
        ).subrange(strs_off(v.drop_last(), i), strs_off(v.drop_last(), i + 1)));
    }
}

/// What a string-vector hypothesis gives: the count field, and one string
/// encoding per element at its cumulative offset.
proof fn lemma_strvec_hyp_parts(b: Seq<u8>, pos: int, v0: Seq<String>)
    requires
        encodes_at(b, pos, strvec_le(v0)),
    ensures
        b.subrange(pos, pos + 8) == u64_le(v0.len() as u64),
        strvec_le(v0).len() == 8 + strs_le(v0).len(),
        strs_le(v0).len() >= 8 * v0.len(),
        strs_off(v0, 0) == 0,
        strs_off(v0, v0.len() as int) == strs_le(v0).len(),
        forall|i: int|
            0 <= i < v0.len() ==> encodes_at(
                b,
                pos + 8 + strs_off(v0, i),
                str_le((#[trigger] v0[i])@),
            ),
{
    let l = strvec_le(v0).len() as int;
    lemma_strs_le_min(v0);
    lemma_sub_of_sub(b, pos, l, 0, 8);
    assert(strvec_le(v0).subrange(0, 8) =~= u64_le(v0.len() as u64));
    assert(v0.take(0) =~= Seq::<String>::empty());
    assert(v0.take(v0.len() as int) =~= v0);
    assert forall|i: int|
        0 <= i < v0.len() implies encodes_at(
        b,
        pos + 8 + strs_off(v0, i),
        str_le((#[trigger] v0[i])@),
    ) by {
        lemma_strs_le_element(v0, i);
        lemma_strs_off_bounds(v0, i);
        lemma_sub_of_sub(b, pos, l, 8 + strs_off(v0, i), 8 + strs_off(v0, i + 1));
        assert(strvec_le(v0).subrange(8 + strs_off(v0, i), 8 + strs_off(v0, i + 1)) =~= strs_le(
            v0,
        ).subrange(strs_off(v0, i), strs_off(v0, i + 1)));
    }
}

/// Cumulative offsets never pass the end of the block.
proof fn lemma_strs_off_bounds(v: Seq<String>, i: int)
    requires
        0 <= i < v.len(),
    ensures
        0 <= strs_off(v, i),
        strs_off(v, i + 1) <= strs_le(v).len(),
    decreases v.len() - i,
{
    lemma_strs_le_element(v, i);
    if i + 1 < v.len() {
        lemma_strs_off_bounds(v, i + 1);
        lemma_strs_le_element(v, i + 1);
        lemma_chars_le_len(v[i + 1]@);
    }
}

/// The encoding of one symbol: the six location fields, then the two
/// identity lists.
#[verifier::opaque]
pub open spec fn symbol_le(s: Symbol) -> Seq<u8> {
    str_le(s.name@) + str_le(s.node_kind@) + str_le(s.file_path@) + u64_le(s.line_number as u64)
        + u64_le(s.start_byte as u64) + u64_le(s.end_byte as u64) + strvec_le(s.dependencies@)
        + strvec_le(s.used_by@)
}

/// The encoding of the fingerprint table's entries.
pub open spec fn fp_entries_le(t: Seq<(String, String)>) -> Seq<u8>
    decreases t.len(),
{
    if t.len() == 0 {
        Seq::<u8>::empty()
    } else {
        fp_entries_le(t.drop_last()) + str_le(t.last().0@) + str_le(t.last().1@)
    }
}

/// The encoding of the symbol table's entries.
pub open spec fn sym_entries_le(t: Seq<(String, Symbol)>) -> Seq<u8>
    decreases t.len(),
{
    if t.len() == 0 {
        Seq::<u8>::empty()
    } else {
        sym_entries_le(t.drop_last()) + str_le(t.last().0@) + symbol_le(t.last().1)
    }
}

/// The encoding of the unresolved table's entries.
pub open spec fn unres_entries_le(t: Seq<(String, Vec<String>)>) -> Seq<u8>
    decreases t.len(),
{
    if t.len() == 0 {
        Seq::<u8>::empty()
    } else {
        unres_entries_le(t.drop_last()) + str_le(t.last().0@) + strvec_le(t.last().1@)
    }
}

/// The whole snapshot: the three tables, each with its entry count.
pub open spec fn index_le(ix: Indexer) -> Seq<u8> {
    u64_le(ix.file_hashes.table().len() as u64) + fp_entries_le(ix.file_hashes.table()) + u64_le(
        ix.symbol_store.table().len() as u64,
    ) + sym_entries_le(ix.symbol_store.table()) + u64_le(
        ix.dependency_resolver.table().len() as u64,
    ) + unres_entries_le(ix.dependency_resolver.table())
}

/// Appends the encoding of a string vector.
pub fn push_string_vec(out: &mut Vec<u8>, v: &Vec<String>)
    ensures
        final(out)@ == old(out)@ + strvec_le(v@),
{
    let ghost o = out@;
    let n = v.len();
    push_u64(out, n as u64);
    let mut i: usize = 0;
    while i < n
        invariant
            n == v@.len(),
            i <= n,
            out@ == o + u64_le(n as u64) + strs_le(v@.take(i as int)),
        decreases n - i,
    {
        push_string(out, &v[i]);
        proof {
            assert(v@.take(i + 1).drop_last() =~= v@.take(i as int));
            assert(out@ =~= o + u64_le(n as u64) + strs_le(v@.take(i + 1)));
        }
        i = i + 1;
    }
    proof {
        assert(v@.take(n as int) =~= v@);
    }
}

/// Appends the encoding of one symbol.
#[verifier::rlimit(50)]
pub fn push_symbol(out: &mut Vec<u8>, s: &Symbol)
    ensures
        final(out)@ == old(out)@ + symbol_le(*s),
{
    let ghost o = out@;
    push_string(out, &s.name);
    push_string(out, &s.node_kind);
    push_string(out, &s.file_path);
    push_u64(out, s.line_number as u64);
    push_u64(out, s.start_byte as u64);
    push_u64(out, s.end_byte as u64);
    push_string_vec(out, &s.dependencies);
    push_string_vec(out, &s.used_by);
    proof {
        reveal(symbol_le);
        assert(out@ =~= o + symbol_le(*s));
    }
}

/// Serializes the whole index: the fingerprint table, the symbol table and
/// the unresolved table, in that fixed order, every count and number as an
/// 8-byte little-endian word. The same index always yields the same bytes.
pub fn encode_index(ix: &Indexer) -> (out: Vec<u8>)
    ensures
        out@ == index_le(*ix),
{
    let mut out: Vec<u8> = Vec::new();
    let fp = &ix.file_hashes.file_hashes;
    let n0 = fp.len();
    push_u64(&mut out, n0 as u64);
    let mut i: usize = 0;
    while i < n0
        invariant
            n0 == fp@.len(),
            fp@ == ix.file_hashes.table(),
            i <= n0,
            out@ == u64_le(n0 as u64) + fp_entries_le(fp@.take(i as int)),
        decreases n0 - i,
    {
        push_string(&mut out, &fp[i].0);
        push_string(&mut out, &fp[i].1);
        proof {
            assert(fp@.take(i + 1).drop_last() =~= fp@.take(i as int));
            assert(out@ =~= u64_le(n0 as u64) + fp_entries_le(fp@.take(i + 1)));
        }
        i = i + 1;
    }
    proof {
        assert(fp@.take(n0 as int) =~= fp@);
    }
    let ghost o1 = out@;
    let st = &ix.symbol_store.symbols;
    let n1 = st.len();
    push_u64(&mut out, n1 as u64);
    let mut j: usize = 0;
    while j < n1
        invariant
            n1 == st@.len(),
            st@ == ix.symbol_store.table(),
            j <= n1,
            out@ == o1 + u64_le(n1 as u64) + sym_entries_le(st@.take(j as int)),
        decreases n1 - j,
    {
        push_string(&mut out, &st[j].0);
        push_symbol(&mut out, &st[j].1);
        proof {
            assert(st@.take(j + 1).drop_last() =~= st@.take(j as int));
            assert(out@ =~= o1 + u64_le(n1 as u64) + sym_entries_le(st@.take(j + 1)));
        }
        j = j + 1;
    }
    proof {
        assert(st@.take(n1 as int) =~= st@);
    }
    let ghost o2 = out@;
    let un = &ix.dependency_resolver.unresolved_deps;
    let n2 = un.len();
    push_u64(&mut out, n2 as u64);
    let mut k: usize = 0;
    while k < n2
        invariant
            n2 == un@.len(),
            un@ == ix.dependency_resolver.table(),
            k <= n2,
            out@ == o2 + u64_le(n2 as u64) + unres_entries_le(un@.take(k as int)),
        decreases n2 - k,
    {
        push_string(&mut out, &un[k].0);
        push_string_vec(&mut out, &un[k].1);
        proof {
            assert(un@.take(k + 1).drop_last() =~= un@.take(k as int));
            assert(out@ =~= o2 + u64_le(n2 as u64) + unres_entries_le(un@.take(k + 1)));
        }
        k = k + 1;
    }
    proof {
        assert(un@.take(n2 as int) =~= un@);
        assert(out@ =~= index_le(*ix));
    }
    out
}

/// Reads a count and checks that it fits the machine and leaves room for at
/// least `min_entry` bytes per entry.
fn read_count(bytes: &Vec<u8>, pos: usize, min_entry: usize) -> (r: Option<(usize, usize)>)
    requires
        min_entry >= 1,
    ensures
        match r {
            Some(vp) => pos + 8 <= bytes@.len() && vp.1 == pos + 8 && vp.0 as int == le_val8(
                bytes@.subrange(pos as int, pos + 8),
            ) && vp.0 <= bytes@.len(),
            None => true,
        },
        (pos + 8 <= bytes@.len() && 0 <= le_val8(bytes@.subrange(pos as int, pos + 8)) && le_val8(
            bytes@.subrange(pos as int, pos + 8),
        ) * min_entry <= bytes@.len()) ==> r is Some,
{
    let blen = bytes.len();
    let ghost c = le_val8(bytes@.subrange(pos as int, pos + 8));
    let ghost fits = pos + 8 <= bytes@.len() && 0 <= c && c * min_entry <= bytes@.len();
    proof {
        if fits {
            assert(c <= c * min_entry) by (nonlinear_arith)
                requires
                    min_entry >= 1,
                    0 <= c,
            ;
        }
    }
    let (n64, p) = match read_u64(bytes, pos) {
        Some(vp) => vp,
        None => {
            return None;
        },
    };
    if n64 > usize::MAX as u64 {
        proof {
            if fits {
                assert(c <= blen as int);
                assert(false);
            }
        }
        return None;
    }
    let n = n64 as usize;
    if n > blen / min_entry {
        proof {
            if fits {
                lemma_mul_le_div(c, min_entry as int, bytes@.len() as int);
                assert(false);
            }
        }
        return None;
    }
    proof {
        assert(n <= bytes@.len());
    }
    Some((n, p))
}

/// Reads one string vector; the consumed range is its exact encoding.
#[verifier::rlimit(100)]
#[verifier::spinoff_prover]
pub fn read_string_vec(bytes: &Vec<u8>, pos: usize) -> (r: Option<(Vec<String>, usize)>)
    ensures
        match r {
            Some(vp) => pos <= vp.1 <= bytes@.len() && bytes@.subrange(pos as int, vp.1 as int)
                == strvec_le(vp.0@),
            None => true,
        },
        forall|v0: Seq<String>|
            #[trigger] encodes_at(bytes@, pos as int, strvec_le(v0)) ==> (r matches Some(vp)
                && vp.0@.len() == v0.len() && (forall|j: int|
                0 <= j < v0.len() ==> (#[trigger] vp.0@[j])@ == v0[j]@) && vp.1 == pos + strvec_le(
                v0,
            ).len()),
{
    let blen = bytes.len();
    let (n, mut p) = match read_count(bytes, pos, 8) {
        Some(vp) => vp,
        None => {
            proof {
                assert forall|v0: Seq<String>|
                    !#[trigger] encodes_at(bytes@, pos as int, strvec_le(v0)) by {
                    if encodes_at(bytes@, pos as int, strvec_le(v0)) {
                        lemma_vec_hyp_count(bytes@, pos as int, v0);
                    }
                }
            }
            return None;
        },
    };
    let mut v: Vec<String> = Vec::new();
    let mut i: usize = 0;
    proof {
        assert forall|v0: Seq<String>|
            #[trigger] encodes_at(bytes@, pos as int, strvec_le(v0)) implies (n == v0.len()
            && strs_off(v0, 0) == 0) by {
            lemma_vec_hyp_count(bytes@, pos as int, v0);
        }
    }
    while i < n
        invariant
            i <= n,
            v@.len() == i,
            pos + 8 <= bytes@.len(),
            pos + 8 <= p <= bytes@.len(),
            n as int == le_val8(bytes@.subrange(pos as int, pos + 8)),
            bytes@.subrange(pos + 8, p as int) == strs_le(v@),
            forall|v0: Seq<String>|
                #[trigger] encodes_at(bytes@, pos as int, strvec_le(v0)) ==> (n == v0.len() && p
                    == pos + 8 + strs_off(v0, i as int) && (forall|j: int|
                    0 <= j < i ==> (#[trigger] v@[j])@ == v0[j]@)),
        decreases n - i,
    {
        let ghost pre_i = i as int;
        let ghost pre_p = p as int;
        let (s, p2) = match read_string(bytes, p) {
            Some(sp) => sp,
            None => {
                proof {
                    assert forall|v0: Seq<String>|
                        !#[trigger] encodes_at(bytes@, pos as int, strvec_le(v0)) by {
                        if encodes_at(bytes@, pos as int, strvec_le(v0)) {
                            lemma_vec_hyp_step(bytes@, pos as int, v0, pre_i);
                        }
                    }
                }
                return None;
            },
        };
        let ghost oldv = v@;
        v.push(s);
        proof {
            assert(v@.drop_last() =~= oldv);
            assert(strs_le(v@) == strs_le(oldv) + str_le(v@.last()@));
            assert(bytes@.subrange(pos + 8, p2 as int) =~= bytes@.subrange(pos + 8, p as int)
                + bytes@.subrange(p as int, p2 as int));
            assert forall|v0: Seq<String>|
                #[trigger] encodes_at(bytes@, pos as int, strvec_le(v0)) implies (n == v0.len()
                && p2 == pos + 8 + strs_off(v0, pre_i + 1) && (forall|j: int|
                0 <= j < pre_i + 1 ==> (#[trigger] v@[j])@ == v0[j]@)) by {
                lemma_vec_hyp_step(bytes@, pos as int, v0, pre_i);
                assert(s@ == v0[pre_i]@);
                assert forall|j: int| 0 <= j < pre_i + 1 implies (#[trigger] v@[j])@
                    == v0[j]@ by {
                    if j < pre_i {
                        assert(oldv[j]@ == v0[j]@);
                    }
                }
            }
        }
        p = p2;
        i = i + 1;
    }
    proof {
        assert(u64_le(v@.len() as u64) =~= bytes@.subrange(pos as int, pos + 8)) by {
            lemma_u64_le_val(v@.len() as u64);
            lemma_le8_inverse(bytes@.subrange(pos as int, pos + 8), v@.len() as u64);
        }
        assert(bytes@.subrange(pos as int, p as int) =~= bytes@.subrange(pos as int, pos + 8)
            + bytes@.subrange(pos + 8, p as int));
        assert(bytes@.subrange(pos as int, p as int) =~= strvec_le(v@));
        assert forall|v0: Seq<String>|
            #[trigger] encodes_at(bytes@, pos as int, strvec_le(v0)) implies (p == pos + strvec_le(
            v0,
        ).len()) by {
            lemma_vec_hyp_count(bytes@, pos as int, v0);
            lemma_strvec_hyp_parts(bytes@, pos as int, v0);
        }
    }
    Some((v, p))
}

/// Reads one number that must fit a machine word.
fn read_usize(bytes: &Vec<u8>, pos: usize) -> (r: Option<(usize, usize)>)
    ensures
        match r {
            Some(vp) => pos + 8 <= bytes@.len() && vp.1 == pos + 8 && bytes@.subrange(
                pos as int,
                pos + 8,
            ) == u64_le(vp.0 as u64),
            None => true,
        },
        forall|x: usize|
            #[trigger] encodes_at(bytes@, pos as int, u64_le(x as u64)) ==> (r matches Some(vp)
                && vp.0 == x && vp.1 == pos + 8),
{
    let (v, p) = match read_u64(bytes, pos) {
        Some(vp) => vp,
        None => {
            proof {
                assert forall|x: usize|
                    !#[trigger] encodes_at(bytes@, pos as int, u64_le(x as u64)) by {
                    if encodes_at(bytes@, pos as int, u64_le(x as u64)) {
                        assert(u64_le(x as u64).len() == 8);
                    }
                }
            }
            return None;
        },
    };
    if v > usize::MAX as u64 {
        proof {
            assert forall|x: usize|
                !#[trigger] encodes_at(bytes@, pos as int, u64_le(x as u64)) by {
                if encodes_at(bytes@, pos as int, u64_le(x as u64)) {
                    lemma_u64_le_val(x as u64);
                }
            }
        }
        return None;
    }
    proof {
        lemma_u64_le_val((v as usize) as u64);
        lemma_le8_inverse(bytes@.subrange(pos as int, pos + 8), (v as usize) as u64);
        assert forall|x: usize|
            #[trigger] encodes_at(bytes@, pos as int, u64_le(x as u64)) implies (v as usize == x
            && p == pos + 8) by {
            lemma_u64_le_val(x as u64);
        }
    }
    Some((v as usize, p))
}

/// Both symbols carry the same fields, read at the view level.
pub open spec fn sym_views_eq(a: Symbol, b: Symbol) -> bool {
    &&& a.name@ == b.name@
    &&& a.node_kind@ == b.node_kind@
    &&& a.file_path@ == b.file_path@
    &&& a.line_number == b.line_number
    &&& a.start_byte == b.start_byte
    &&& a.end_byte == b.end_byte
    &&& a.dependencies@.len() == b.dependencies@.len()
    &&& forall|j: int|
        0 <= j < a.dependencies@.len() ==> (#[trigger] a.dependencies@[j])@ == b.dependencies@[j]@
    &&& a.used_by@.len() == b.used_by@.len()
    &&& forall|j: int| 0 <= j < a.used_by@.len() ==> (#[trigger] a.used_by@[j])@ == b.used_by@[j]@
}

/// What a symbol-encoding hypothesis gives: each of the eight pieces sits
/// at its cumulative offset.
#[verifier::rlimit(100)]
#[verifier::spinoff_prover]
proof fn lemma_symbol_hyp_parts(b: Seq<u8>, pos: int, sym0: Symbol)
    requires
        encodes_at(b, pos, symbol_le(sym0)),
    ensures
        encodes_at(b, pos, str_le(sym0.name@)),
        encodes_at(b, pos + str_le(sym0.name@).len(), str_le(sym0.node_kind@)),
        encodes_at(
            b,
            pos + str_le(sym0.name@).len() + str_le(sym0.node_kind@).len(),
            str_le(sym0.file_path@),
        ),
        encodes_at(
            b,
            pos + str_le(sym0.name@).len() + str_le(sym0.node_kind@).len() + str_le(
                sym0.file_path@,
            ).len(),
            u64_le(sym0.line_number as u64),
        ),
        encodes_at(
            b,
            pos + str_le(sym0.name@).len() + str_le(sym0.node_kind@).len() + str_le(
                sym0.file_path@,
            ).len() + 8,
            u64_le(sym0.start_byte as u64),
        ),
        encodes_at(
            b,
            pos + str_le(sym0.name@).len() + str_le(sym0.node_kind@).len() + str_le(
                sym0.file_path@,
            ).len() + 16,
            u64_le(sym0.end_byte as u64),
        ),
        encodes_at(
            b,
            pos + str_le(sym0.name@).len() + str_le(sym0.node_kind@).len() + str_le(
                sym0.file_path@,
            ).len() + 24,
            strvec_le(sym0.dependencies@),
        ),
        encodes_at(
            b,
            pos + str_le(sym0.name@).len() + str_le(sym0.node_kind@).len() + str_le(
                sym0.file_path@,
            ).len() + 24 + strvec_le(sym0.dependencies@).len(),
            strvec_le(sym0.used_by@),
        ),
        symbol_le(sym0).len() == str_le(sym0.name@).len() + str_le(sym0.node_kind@).len() + str_le(
            sym0.file_path@,
        ).len() + 24 + strvec_le(sym0.dependencies@).len() + strvec_le(sym0.used_by@).len(),
{
    reveal(symbol_le);
    let l = symbol_le(sym0).len() as int;
    let a1 = str_le(sym0.name@).len() as int;
    let a2 = a1 + str_le(sym0.node_kind@).len() as int;
    let a3 = a2 + str_le(sym0.file_path@).len() as int;
    let a4 = a3 + 8;
    let a5 = a4 + 8;
    let a6 = a5 + 8;
    let a7 = a6 + strvec_le(sym0.dependencies@).len() as int;
    lemma_sub_of_sub(b, pos, l, 0, a1);
    assert(symbol_le(sym0).subrange(0, a1) =~= str_le(sym0.name@));
    lemma_sub_of_sub(b, pos, l, a1, a2);
    assert(symbol_le(sym0).subrange(a1, a2) =~= str_le(sym0.node_kind@));
    lemma_sub_of_sub(b, pos, l, a2, a3);
    assert(symbol_le(sym0).subrange(a2, a3) =~= str_le(sym0.file_path@));
    lemma_sub_of_sub(b, pos, l, a3, a4);
    assert(symbol_le(sym0).subrange(a3, a4) =~= u64_le(sym0.line_number as u64));
    lemma_sub_of_sub(b, pos, l, a4, a5);
    assert(symbol_le(sym0).subrange(a4, a5) =~= u64_le(sym0.start_byte as u64));
    lemma_sub_of_sub(b, pos, l, a5, a6);
    assert(symbol_le(sym0).subrange(a5, a6) =~= u64_le(sym0.end_byte as u64));
    lemma_sub_of_sub(b, pos, l, a6, a7);
    assert(symbol_le(sym0).subrange(a6, a7) =~= strvec_le(sym0.dependencies@));
    lemma_sub_of_sub(b, pos, l, a7, l);
    assert(symbol_le(sym0).subrange(a7, l) =~= strvec_le(sym0.used_by@));
}

/// Cumulative offsets of the eight pieces of a symbol encoding.
pub open spec fn sym_off3(sym0: Symbol) -> int {
    str_le(sym0.name@).len() + str_le(sym0.node_kind@).len() + str_le(sym0.file_path@).len() as int
}

/// The name piece of a symbol encoding.
proof fn lemma_sym_piece_name(b: Seq<u8>, pos: int, sym0: Symbol)
    requires
        encodes_at(b, pos, symbol_le(sym0)),
    ensures
        encodes_at(b, pos, str_le(sym0.name@)),
{
    lemma_symbol_hyp_parts(b, pos, sym0);
}

/// The node-kind piece of a symbol encoding.
proof fn lemma_sym_piece_kind(b: Seq<u8>, pos: int, sym0: Symbol)
    requires
        encodes_at(b, pos, symbol_le(sym0)),
    ensures
        encodes_at(b, pos + str_le(sym0.name@).len(), str_le(sym0.node_kind@)),
{
    lemma_symbol_hyp_parts(b, pos, sym0);
}

/// The file-path piece of a symbol encoding.
proof fn lemma_sym_piece_path(b: Seq<u8>, pos: int, sym0: Symbol)
    requires
        encodes_at(b, pos, symbol_le(sym0)),
    ensures
        encodes_at(
            b,
            pos + str_le(sym0.name@).len() + str_le(sym0.node_kind@).len(),
            str_le(sym0.file_path@),
        ),
{
    lemma_symbol_hyp_parts(b, pos, sym0);
}

/// The three number pieces of a symbol encoding.
#[verifier::spinoff_prover]
proof fn lemma_sym_piece_numbers(b: Seq<u8>, pos: int, sym0: Symbol)
    requires
        encodes_at(b, pos, symbol_le(sym0)),
    ensures
        encodes_at(b, pos + sym_off3(sym0), u64_le(sym0.line_number as u64)),
        encodes_at(b, pos + sym_off3(sym0) + 8, u64_le(sym0.start_byte as u64)),
        encodes_at(b, pos + sym_off3(sym0) + 16, u64_le(sym0.end_byte as u64)),
{
    lemma_symbol_hyp_parts(b, pos, sym0);
}

/// The two identity-list pieces of a symbol encoding, and the total length.
proof fn lemma_sym_piece_lists(b: Seq<u8>, pos: int, sym0: Symbol)
    requires
        encodes_at(b, pos, symbol_le(sym0)),
    ensures
        encodes_at(b, pos + sym_off3(sym0) + 24, strvec_le(sym0.dependencies@)),
        encodes_at(
            b,
            pos + sym_off3(sym0) + 24 + strvec_le(sym0.dependencies@).len(),
            strvec_le(sym0.used_by@),
        ),
        symbol_le(sym0).len() == sym_off3(sym0) + 24 + strvec_le(sym0.dependencies@).len()
            + strvec_le(sym0.used_by@).len(),
{
    lemma_symbol_hyp_parts(b, pos, sym0);
}

/// Reads one symbol; the consumed range is its exact encoding.
/// Reads the six scalar fields of a symbol.
#[verifier::rlimit(100)]
#[verifier::spinoff_prover]
fn read_symbol_head(bytes: &Vec<u8>, pos: usize) -> (r: Option<
    (String, String, String, usize, usize, usize, usize),
>)
    ensures
        match r {
            Some(h) => pos <= h.6 <= bytes@.len() && bytes@.subrange(pos as int, h.6 as int)
                == str_le(h.0@) + str_le(h.1@) + str_le(h.2@) + u64_le(h.3 as u64) + u64_le(
                h.4 as u64,
            ) + u64_le(h.5 as u64),
            None => true,
        },
        forall|sym0: Symbol|
            #[trigger] encodes_at(bytes@, pos as int, symbol_le(sym0)) ==> (r matches Some(h)
                && h.0@ == sym0.name@ && h.1@ == sym0.node_kind@ && h.2@ == sym0.file_path@ && h.3
                == sym0.line_number && h.4 == sym0.start_byte && h.5 == sym0.end_byte && h.6 == pos
                + sym_off3(sym0) + 24),
{
    let (name, p1) = match read_string(bytes, pos) {
        Some(x) => x,
        None => {
            proof {
                assert forall|sym0: Symbol|
                    !#[trigger] encodes_at(bytes@, pos as int, symbol_le(sym0)) by {
                    if encodes_at(bytes@, pos as int, symbol_le(sym0)) {
                        lemma_sym_piece_name(bytes@, pos as int, sym0);
                    }
                }
            }
            return None;
        },
    };
    let (node_kind, p2) = match read_string(bytes, p1) {
        Some(x) => x,
        None => {
            proof {
                assert forall|sym0: Symbol|
                    !#[trigger] encodes_at(bytes@, pos as int, symbol_le(sym0)) by {
                    if encodes_at(bytes@, pos as int, symbol_le(sym0)) {
                        lemma_sym_piece_name(bytes@, pos as int, sym0);
                        lemma_sym_piece_kind(bytes@, pos as int, sym0);
                    }
                }
            }
            return None;
        },
    };
    let (file_path, p3) = match read_string(bytes, p2) {
        Some(x) => x,
        None => {
            proof {
                assert forall|sym0: Symbol|
                    !#[trigger] encodes_at(bytes@, pos as int, symbol_le(sym0)) by {
                    if encodes_at(bytes@, pos as int, symbol_le(sym0)) {
                        lemma_sym_piece_name(bytes@, pos as int, sym0);
                        lemma_sym_piece_kind(bytes@, pos as int, sym0);
                        lemma_sym_piece_path(bytes@, pos as int, sym0);
                    }
                }
            }
            return None;
        },
    };
    let (line_number, p4) = match read_usize(bytes, p3) {
        Some(x) => x,
        None => {
            proof {
                assert forall|sym0: Symbol|
                    !#[trigger] encodes_at(bytes@, pos as int, symbol_le(sym0)) by {
                    if encodes_at(bytes@, pos as int, symbol_le(sym0)) {
                        lemma_sym_piece_name(bytes@, pos as int, sym0);
                        lemma_sym_piece_kind(bytes@, pos as int, sym0);
                        lemma_sym_piece_path(bytes@, pos as int, sym0);
                        lemma_sym_piece_numbers(bytes@, pos as int, sym0);
                    }
                }
            }
            return None;
        },
    };
    let (start_byte, p5) = match read_usize(bytes, p4) {
        Some(x) => x,
        None => {
            proof {
                assert forall|sym0: Symbol|
                    !#[trigger] encodes_at(bytes@, pos as int, symbol_le(sym0)) by {
                    if encodes_at(bytes@, pos as int, symbol_le(sym0)) {
                        lemma_sym_piece_name(bytes@, pos as int, sym0);
                        lemma_sym_piece_kind(bytes@, pos as int, sym0);
                        lemma_sym_piece_path(bytes@, pos as int, sym0);
                        lemma_sym_piece_numbers(bytes@, pos as int, sym0);
                    }
                }
            }
            return None;
        },
    };
    let (end_byte, p6) = match read_usize(bytes, p5) {
        Some(x) => x,
        None => {
            proof {
                assert forall|sym0: Symbol|
                    !#[trigger] encodes_at(bytes@, pos as int, symbol_le(sym0)) by {
                    if encodes_at(bytes@, pos as int, symbol_le(sym0)) {
                        lemma_sym_piece_name(bytes@, pos as int, sym0);
                        lemma_sym_piece_kind(bytes@, pos as int, sym0);
                        lemma_sym_piece_path(bytes@, pos as int, sym0);
                        lemma_sym_piece_numbers(bytes@, pos as int, sym0);
                    }
                }
            }
            return None;
        },
    };
    proof {
        lemma_subrange_concat(bytes@, pos as int, p1 as int, p2 as int);
        lemma_subrange_concat(bytes@, pos as int, p2 as int, p3 as int);
        lemma_subrange_concat(bytes@, pos as int, p3 as int, p4 as int);
        lemma_subrange_concat(bytes@, pos as int, p4 as int, p5 as int);
        lemma_subrange_concat(bytes@, pos as int, p5 as int, p6 as int);
        assert forall|sym0: Symbol|
            #[trigger] encodes_at(bytes@, pos as int, symbol_le(sym0)) implies (name@ == sym0.name@
            && node_kind@ == sym0.node_kind@ && file_path@ == sym0.file_path@ && line_number
            == sym0.line_number && start_byte == sym0.start_byte && end_byte == sym0.end_byte && p6
            == pos + sym_off3(sym0) + 24) by {
            lemma_sym_piece_name(bytes@, pos as int, sym0);
            lemma_sym_piece_kind(bytes@, pos as int, sym0);
            lemma_sym_piece_path(bytes@, pos as int, sym0);
            lemma_sym_piece_numbers(bytes@, pos as int, sym0);
        }
    }
    Some((name, node_kind, file_path, line_number, start_byte, end_byte, p6))
}

/// A head range followed by the two list ranges assembles a symbol's whole
/// encoding.
#[verifier::spinoff_prover]
proof fn lemma_symbol_assemble_tail(
    b: Seq<u8>,
    pos: int,
    p6: int,
    p7: int,
    p8: int,
    sym: Symbol,
)
    requires
        0 <= pos <= p6 <= p7 <= p8 <= b.len(),
        b.subrange(pos, p6) == str_le(sym.name@) + str_le(sym.node_kind@) + str_le(sym.file_path@)
            + u64_le(sym.line_number as u64) + u64_le(sym.start_byte as u64) + u64_le(
            sym.end_byte as u64,
        ),
        b.subrange(p6, p7) == strvec_le(sym.dependencies@),
        b.subrange(p7, p8) == strvec_le(sym.used_by@),
    ensures
        b.subrange(pos, p8) == symbol_le(sym),
{
    reveal(symbol_le);
    lemma_subrange_concat(b, pos, p6, p7);
    lemma_subrange_concat(b, pos, p7, p8);
}

/// Reads one symbol; the consumed range is its exact encoding, and a
/// symbol encoding sitting at `pos` is always read back as that symbol,
/// field for field.
#[verifier::rlimit(100)]
#[verifier::spinoff_prover]
pub fn read_symbol(bytes: &Vec<u8>, pos: usize) -> (r: Option<(Symbol, usize)>)
    ensures
        match r {
            Some(sp) => pos <= sp.1 <= bytes@.len() && bytes@.subrange(pos as int, sp.1 as int)
                == symbol_le(sp.0),
            None => true,
        },
        forall|sym0: Symbol|
            #[trigger] encodes_at(bytes@, pos as int, symbol_le(sym0)) ==> (r matches Some(sp)
                && sym_views_eq(sp.0, sym0) && sp.1 == pos + symbol_le(sym0).len()),
{
    let (name, node_kind, file_path, line_number, start_byte, end_byte, p6) =
        match read_symbol_head(bytes, pos) {
        Some(h) => h,
        None => {
            return None;
        },
    };
    let (dependencies, p7) = match read_string_vec(bytes, p6) {
        Some(x) => x,
        None => {
            proof {
                assert forall|sym0: Symbol|
                    !#[trigger] encodes_at(bytes@, pos as int, symbol_le(sym0)) by {
                    if encodes_at(bytes@, pos as int, symbol_le(sym0)) {
                        lemma_sym_piece_lists(bytes@, pos as int, sym0);
                    }
                }
            }
            return None;
        },
    };
    let (used_by, p8) = match read_string_vec(bytes, p7) {
        Some(x) => x,
        None => {
            proof {
                assert forall|sym0: Symbol|
                    !#[trigger] encodes_at(bytes@, pos as int, symbol_le(sym0)) by {
                    if encodes_at(bytes@, pos as int, symbol_le(sym0)) {
                        lemma_sym_piece_lists(bytes@, pos as int, sym0);
                    }
                }
            }
            return None;
        },
    };
    let sym = Symbol {
        name,
        node_kind,
        file_path,
        line_number,
        start_byte,
        end_byte,
        dependencies,
        used_by,
    };
    proof {
        lemma_symbol_assemble_tail(bytes@, pos as int, p6 as int, p7 as int, p8 as int, sym);
        assert forall|sym0: Symbol|
            #[trigger] encodes_at(bytes@, pos as int, symbol_le(sym0)) implies (sym_views_eq(
            sym,
            sym0,
        ) && p8 == pos + symbol_le(sym0).len()) by {
            lemma_sym_piece_lists(bytes@, pos as int, sym0);
            assert(dependencies@.len() == sym0.dependencies@.len() && (forall|j: int|
                0 <= j < sym0.dependencies@.len() ==> (#[trigger] dependencies@[j])@
                    == sym0.dependencies@[j]@));
            assert(p7 == p6 + strvec_le(sym0.dependencies@).len());
            assert(used_by@.len() == sym0.used_by@.len() && (forall|j: int|
                0 <= j < sym0.used_by@.len() ==> (#[trigger] used_by@[j])@ == sym0.used_by@[j]@));
            assert(p8 == p7 + strvec_le(sym0.used_by@).len());
        }
    }
    Some((sym, p8))
}

/// Eight adjacent ranges that encode a symbol's pieces make up the
/// symbol's encoding.
#[verifier::spinoff_prover]
proof fn lemma_symbol_assemble(
    bytes: Seq<u8>,
    pos: int,
    p1: int,
    p2: int,
    p3: int,
    p4: int,
    p5: int,
    p6: int,
    p7: int,
    p8: int,
    sym: Symbol,
)
    requires
        0 <= pos <= p1 <= p2 <= p3 <= p4 <= p5 <= p6 <= p7 <= p8 <= bytes.len(),
        bytes.subrange(pos, p1) == str_le(sym.name@),
        bytes.subrange(p1, p2) == str_le(sym.node_kind@),
        bytes.subrange(p2, p3) == str_le(sym.file_path@),
        bytes.subrange(p3, p4) == u64_le(sym.line_number as u64),
        bytes.subrange(p4, p5) == u64_le(sym.start_byte as u64),
        bytes.subrange(p5, p6) == u64_le(sym.end_byte as u64),
        bytes.subrange(p6, p7) == strvec_le(sym.dependencies@),
        bytes.subrange(p7, p8) == strvec_le(sym.used_by@),
    ensures
        bytes.subrange(pos, p8) == symbol_le(sym),
{
    reveal(symbol_le);
    lemma_subrange_concat(bytes, pos, p1, p2);
    lemma_subrange_concat(bytes, pos, p2, p3);
    lemma_subrange_concat(bytes, pos, p3, p4);
    lemma_subrange_concat(bytes, pos, p4, p5);
    lemma_subrange_concat(bytes, pos, p5, p6);
    lemma_subrange_concat(bytes, pos, p6, p7);
    lemma_subrange_concat(bytes, pos, p7, p8);
}

/// An adjacent pair of ranges concatenates to the enclosing range.
pub proof fn lemma_subrange_concat(b: Seq<u8>, a: int, m: int, c: int)
    requires
        0 <= a <= m <= c <= b.len(),
    ensures
        b.subrange(a, c) == b.subrange(a, m) + b.subrange(m, c),
{
    assert(b.subrange(a, c) =~= b.subrange(a, m) + b.subrange(m, c));
}

/// Whether the table's keys are pairwise distinct.
fn check_unique_keys<V>(entries: &Vec<(String, V)>) -> (r: bool)
    ensures
        r == unique_keys(entries@),
{
    let n = entries.len();
    let mut i: usize = 0;
    while i < n
        invariant
            n == entries@.len(),
            i <= n,
            forall|a: int, b: int| 0 <= a < b < i ==> entries@[a].0@ != entries@[b].0@,
        decreases n - i,
    {
        let mut j: usize = 0;
        while j < i
            invariant
                i < n,
                n == entries@.len(),
                j <= i,
                forall|b: int| 0 <= b < j ==> entries@[b].0@ != entries@[i as int].0@,
            decreases i - j,
        {
            if entries[j].0 == entries[i].0 {
                proof {
                    assert(entries@[j as int].0@ == entries@[i as int].0@);
                }
                return false;
            }
            j = j + 1;
        }
        i = i + 1;
    }
    true
}

/// Whether the strings are pairwise distinct.
fn check_distinct(v: &Vec<String>) -> (r: bool)
    ensures
        r == distinct_strs(v@),
{
    let n = v.len();
    let mut i: usize = 0;
    while i < n
        invariant
            n == v@.len(),
            i <= n,
            forall|a: int, b: int| 0 <= a < b < i ==> v@[a]@ != v@[b]@,
        decreases n - i,
    {
        let mut j: usize = 0;
        while j < i
            invariant
                i < n,
                n == v@.len(),
                j <= i,
                forall|b: int| 0 <= b < j ==> v@[b]@ != v@[i as int]@,
            decreases i - j,
        {
            if v[j] == v[i] {
                return false;
            }
            j = j + 1;
        }
        i = i + 1;
    }
    true
}

/// Whether every edge of every symbol points at a stored symbol, has its
/// mirror edge, and no symbol refers to itself.
fn check_graph(t: &Vec<(String, Symbol)>) -> (r: bool)
    requires
        unique_keys(t@),
    ensures
        r == graph_wf(t@),
{
    let n = t.len();
    let mut i: usize = 0;
    while i < n
        invariant
            unique_keys(t@),
            n == t@.len(),
            i <= n,
            forall|a: int, d: Seq<char>|
                0 <= a < i && #[trigger] contains_str(t@[a].1.dependencies@, d) ==> has_key(t@, d)
                    && contains_str(crate::assoc::value_of(t@, d).used_by@, t@[a].0@),
            forall|a: int, u: Seq<char>|
                0 <= a < i && #[trigger] contains_str(t@[a].1.used_by@, u) ==> has_key(t@, u)
                    && contains_str(crate::assoc::value_of(t@, u).dependencies@, t@[a].0@),
            forall|a: int|
                0 <= a < i ==> !contains_str((#[trigger] t@[a]).1.dependencies@, t@[a].0@)
                    && !contains_str(t@[a].1.used_by@, t@[a].0@),
        decreases n - i,
    {
        if crate::assoc::vec_contains_string(&t[i].1.dependencies, &t[i].0) {
            proof {
                assert(!graph_wf(t@)) by {
                    if graph_wf(t@) {
                        assert(!contains_str((#[trigger] t@[i as int]).1.dependencies@,
                        t@[i as int].0@));
                    }
                }
            }
            return false;
        }
        if crate::assoc::vec_contains_string(&t[i].1.used_by, &t[i].0) {
            proof {
                assert(!graph_wf(t@)) by {
                    if graph_wf(t@) {
                        assert(!contains_str((#[trigger] t@[i as int]).1.used_by@,
                        t@[i as int].0@));
                    }
                }
            }
            return false;
        }
        let nd = t[i].1.dependencies.len();
        let mut k: usize = 0;
        while k < nd
            invariant
                unique_keys(t@),
                i < n,
                n == t@.len(),
                nd == t@[i as int].1.dependencies@.len(),
                k <= nd,
                forall|k2: int|
                    0 <= k2 < k ==> {
                        let d = (#[trigger] t@[i as int].1.dependencies@[k2])@;
                        has_key(t@, d) && contains_str(
                            crate::assoc::value_of(t@, d).used_by@,
                            t@[i as int].0@,
                        )
                    },
            decreases nd - k,
        {
            let ghost d = t@[i as int].1.dependencies@[k as int]@;
            proof {
                assert(contains_str(t@[i as int].1.dependencies@, d));
            }
            match find_key(t, &t[i].1.dependencies[k]) {
                Some(x) => {
                    proof {
                        crate::assoc::lemma_key_at(t@, x as int);
                    }
                    if !crate::assoc::vec_contains_string(&t[x].1.used_by, &t[i].0) {
                        proof {
                            assert(!graph_wf(t@)) by {
                                if graph_wf(t@) {
                                    assert(has_key(t@, d) && contains_str(
                                        crate::assoc::value_of(t@, d).used_by@,
                                        t@[i as int].0@,
                                    ));
                                }
                            }
                        }
                        return false;
                    }
                },
                None => {
                    proof {
                        assert(!graph_wf(t@)) by {
                            if graph_wf(t@) {
                                assert(has_key(t@, d) && contains_str(
                                    crate::assoc::value_of(t@, d).used_by@,
                                    t@[i as int].0@,
                                ));
                            }
                        }
                    }
                    return false;
                },
            }
            k = k + 1;
        }
        proof {
            assert forall|d: Seq<char>|
                #[trigger] contains_str(t@[i as int].1.dependencies@, d) implies has_key(t@, d)
                && contains_str(crate::assoc::value_of(t@, d).used_by@, t@[i as int].0@) by {
                let k2 = choose|k2: int|
                    0 <= k2 < nd && (#[trigger] t@[i as int].1.dependencies@[k2])@ == d;
            }
        }
        let nu = t[i].1.used_by.len();
        let mut k2: usize = 0;
        while k2 < nu
            invariant
                unique_keys(t@),
                i < n,
                n == t@.len(),
                nu == t@[i as int].1.used_by@.len(),
                k2 <= nu,
                forall|k3: int|
                    0 <= k3 < k2 ==> {
                        let u = (#[trigger] t@[i as int].1.used_by@[k3])@;
                        has_key(t@, u) && contains_str(
                            crate::assoc::value_of(t@, u).dependencies@,
                            t@[i as int].0@,
                        )
                    },
            decreases nu - k2,
        {
            let ghost u = t@[i as int].1.used_by@[k2 as int]@;
            proof {
                assert(contains_str(t@[i as int].1.used_by@, u));
            }
            match find_key(t, &t[i].1.used_by[k2]) {
                Some(x) => {
                    proof {
                        crate::assoc::lemma_key_at(t@, x as int);
                    }
                    if !crate::assoc::vec_contains_string(&t[x].1.dependencies, &t[i].0) {
                        proof {
                            assert(!graph_wf(t@)) by {
                                if graph_wf(t@) {
                                    assert(has_key(t@, u) && contains_str(
                                        crate::assoc::value_of(t@, u).dependencies@,
                                        t@[i as int].0@,
                                    ));
                                }
                            }
                        }
                        return false;
                    }
                },
                None => {
                    proof {
                        assert(!graph_wf(t@)) by {
                            if graph_wf(t@) {
                                assert(has_key(t@, u) && contains_str(
                                    crate::assoc::value_of(t@, u).dependencies@,
                                    t@[i as int].0@,
                                ));
                            }
                        }
                    }
                    return false;
                },
            }
            k2 = k2 + 1;
        }
        proof {
            assert forall|u: Seq<char>|
                #[trigger] contains_str(t@[i as int].1.used_by@, u) implies has_key(t@, u)
                && contains_str(crate::assoc::value_of(t@, u).dependencies@, t@[i as int].0@) by {
                let k3 = choose|k3: int|
                    0 <= k3 < nu && (#[trigger] t@[i as int].1.used_by@[k3])@ == u;
            }
        }
        i = i + 1;
    }
    true
}

/// Cumulative offsets inside the three entry blocks.
pub open spec fn fp_off(t: Seq<(String, String)>, i: int) -> int {
    fp_entries_le(t.take(i)).len() as int
}

pub open spec fn sym_toff(t: Seq<(String, Symbol)>, i: int) -> int {
    sym_entries_le(t.take(i)).len() as int
}

pub open spec fn unres_off(t: Seq<(String, Vec<String>)>, i: int) -> int {
    unres_entries_le(t.take(i)).len() as int
}

/// A fingerprint block is at least 16 bytes per entry.
proof fn lemma_fp_entries_min(t: Seq<(String, String)>)
    ensures
        fp_entries_le(t).len() >= 16 * t.len(),
    decreases t.len(),
{
    if t.len() > 0 {
        lemma_fp_entries_min(t.drop_last());
        lemma_chars_le_len(t.last().0@);
        lemma_chars_le_len(t.last().1@);
    }
}

/// A symbol block is at least 8 bytes per entry.
#[verifier::rlimit(100)]
#[verifier::spinoff_prover]
proof fn lemma_sym_entries_min(t: Seq<(String, Symbol)>)
    ensures
        sym_entries_le(t).len() >= 8 * t.len(),
    decreases t.len(),
{
    if t.len() > 0 {
        lemma_sym_entries_min(t.drop_last());
        lemma_chars_le_len(t.last().0@);
    }
}

/// An unresolved block is at least 8 bytes per entry.
proof fn lemma_unres_entries_min(t: Seq<(String, Vec<String>)>)
    ensures
        unres_entries_le(t).len() >= 8 * t.len(),
    decreases t.len(),
{
    if t.len() > 0 {
        lemma_unres_entries_min(t.drop_last());
        lemma_chars_le_len(t.last().0@);
    }
}

/// The i-th slice of a fingerprint block encodes the i-th entry's two
/// strings, one after the other.
proof fn lemma_fp_entries_element(t: Seq<(String, String)>, i: int)
    requires
        0 <= i < t.len(),
    ensures
        0 <= fp_off(t, i),
        fp_off(t, i + 1) == fp_off(t, i) + str_le(t[i].0@).len() + str_le(t[i].1@).len(),
        fp_off(t, i + 1) <= fp_entries_le(t).len(),
        fp_entries_le(t).subrange(fp_off(t, i), fp_off(t, i) + str_le(t[i].0@).len() as int)
            == str_le(t[i].0@),
        fp_entries_le(t).subrange(fp_off(t, i) + str_le(t[i].0@).len(), fp_off(t, i + 1)) == str_le(
            t[i].1@,
        ),
    decreases t.len(),
{
    if i == t.len() - 1 {
        assert(t.take(i) =~= t.drop_last());
        assert(t.take(i + 1) =~= t);
        assert(fp_entries_le(t).subrange(fp_off(t, i), fp_off(t, i) + str_le(
            t[i].0@,
        ).len() as int) =~= str_le(t[i].0@));
        assert(fp_entries_le(t).subrange(fp_off(t, i) + str_le(t[i].0@).len(), fp_off(t, i + 1))
            =~= str_le(t[i].1@));
    } else {
        lemma_fp_entries_element(t.drop_last(), i);
        assert(t.drop_last().take(i) =~= t.take(i));
        assert(t.drop_last().take(i + 1) =~= t.take(i + 1));
        assert(t.drop_last()[i] == t[i]);
        assert(fp_entries_le(t).subrange(fp_off(t, i), fp_off(t, i) + str_le(
            t[i].0@,
        ).len() as int) =~= fp_entries_le(t.drop_last()).subrange(
            fp_off(t.drop_last(), i),
            fp_off(t.drop_last(), i) + str_le(t[i].0@).len() as int,
        ));
        assert(fp_entries_le(t).subrange(fp_off(t, i) + str_le(t[i].0@).len(), fp_off(t, i + 1))
            =~= fp_entries_le(t.drop_last()).subrange(
            fp_off(t.drop_last(), i) + str_le(t[i].0@).len(),
            fp_off(t.drop_last(), i + 1),
        ));
    }
}

/// The i-th slice of a symbol block encodes the i-th entry's identity and
/// symbol, one after the other.
proof fn lemma_sym_entries_element(t: Seq<(String, Symbol)>, i: int)
    requires
        0 <= i < t.len(),
    ensures
        0 <= sym_toff(t, i),
        sym_toff(t, i + 1) == sym_toff(t, i) + str_le(t[i].0@).len() + symbol_le(t[i].1).len(),
        sym_toff(t, i + 1) <= sym_entries_le(t).len(),
        sym_entries_le(t).subrange(sym_toff(t, i), sym_toff(t, i) + str_le(t[i].0@).len() as int)
            == str_le(t[i].0@),
        sym_entries_le(t).subrange(sym_toff(t, i) + str_le(t[i].0@).len(), sym_toff(t, i + 1))
            == symbol_le(t[i].1),
    decreases t.len(),
{
    if i == t.len() - 1 {
        assert(t.take(i) =~= t.drop_last());
        assert(t.take(i + 1) =~= t);
        assert(sym_entries_le(t).subrange(sym_toff(t, i), sym_toff(t, i) + str_le(
            t[i].0@,
        ).len() as int) =~= str_le(t[i].0@));
        assert(sym_entries_le(t).subrange(sym_toff(t, i) + str_le(t[i].0@).len(), sym_toff(t, i + 1))
            =~= symbol_le(t[i].1));
    } else {
        lemma_sym_entries_element(t.drop_last(), i);
        assert(t.drop_last().take(i) =~= t.take(i));
        assert(t.drop_last().take(i + 1) =~= t.take(i + 1));
        assert(t.drop_last()[i] == t[i]);
        assert(sym_entries_le(t).subrange(sym_toff(t, i), sym_toff(t, i) + str_le(
            t[i].0@,
        ).len() as int) =~= sym_entries_le(t.drop_last()).subrange(
            sym_toff(t.drop_last(), i),
            sym_toff(t.drop_last(), i) + str_le(t[i].0@).len() as int,
        ));
        assert(sym_entries_le(t).subrange(sym_toff(t, i) + str_le(t[i].0@).len(), sym_toff(t, i + 1))
            =~= sym_entries_le(t.drop_last()).subrange(
            sym_toff(t.drop_last(), i) + str_le(t[i].0@).len(),
            sym_toff(t.drop_last(), i + 1),
        ));
    }
}

/// The i-th slice of an unresolved block encodes the i-th entry's caller and
/// name list, one after the other.
proof fn lemma_unres_entries_element(t: Seq<(String, Vec<String>)>, i: int)
    requires
        0 <= i < t.len(),
    ensures
        0 <= unres_off(t, i),
        unres_off(t, i + 1) == unres_off(t, i) + str_le(t[i].0@).len() + strvec_le(t[i].1@).len(),
        unres_off(t, i + 1) <= unres_entries_le(t).len(),
        unres_entries_le(t).subrange(unres_off(t, i), unres_off(t, i) + str_le(
            t[i].0@,
        ).len() as int) == str_le(t[i].0@),
        unres_entries_le(t).subrange(unres_off(t, i) + str_le(t[i].0@).len(), unres_off(t, i + 1))
            == strvec_le(t[i].1@),
    decreases t.len(),
{
    if i == t.len() - 1 {
        assert(t.take(i) =~= t.drop_last());
        assert(t.take(i + 1) =~= t);
        assert(unres_entries_le(t).subrange(unres_off(t, i), unres_off(t, i) + str_le(
            t[i].0@,
        ).len() as int) =~= str_le(t[i].0@));
        assert(unres_entries_le(t).subrange(
            unres_off(t, i) + str_le(t[i].0@).len(),
            unres_off(t, i + 1),
        ) =~= strvec_le(t[i].1@));
    } else {
        lemma_unres_entries_element(t.drop_last(), i);
        assert(t.drop_last().take(i) =~= t.take(i));
        assert(t.drop_last().take(i + 1) =~= t.take(i + 1));
        assert(t.drop_last()[i] == t[i]);
        assert(unres_entries_le(t).subrange(unres_off(t, i), unres_off(t, i) + str_le(
            t[i].0@,
        ).len() as int) =~= unres_entries_le(t.drop_last()).subrange(
            unres_off(t.drop_last(), i),
            unres_off(t.drop_last(), i) + str_le(t[i].0@).len() as int,
        ));
        assert(unres_entries_le(t).subrange(
            unres_off(t, i) + str_le(t[i].0@).len(),
            unres_off(t, i + 1),
        ) =~= unres_entries_le(t.drop_last()).subrange(
            unres_off(t.drop_last(), i) + str_le(t[i].0@).len(),
            unres_off(t.drop_last(), i + 1),
        ));
    }
}

/// What a string-vector hypothesis gives at its count field, with the
/// byte sequence bounded by the machine word.
proof fn lemma_vec_hyp_count(b: Seq<u8>, pos: int, v0: Seq<String>)
    requires
        encodes_at(b, pos, strvec_le(v0)),
        b.len() <= usize::MAX,
    ensures
        pos + 8 <= b.len(),
        v0.len() <= usize::MAX,
        b.subrange(pos, pos + 8) == u64_le(v0.len() as u64),
        le_val8(b.subrange(pos, pos + 8)) == v0.len() as int,
        le_val8(b.subrange(pos, pos + 8)) * 8 <= b.len(),
        strs_off(v0, 0) == 0,
{
    lemma_strvec_hyp_parts(b, pos, v0);
    lemma_u64_le_val(v0.len() as u64);
}

/// One step of walking a string-vector block: the i-th string encodes at
/// its cumulative offset, which the string's own length then advances.
proof fn lemma_vec_hyp_step(b: Seq<u8>, pos: int, v0: Seq<String>, i: int)
    requires
        encodes_at(b, pos, strvec_le(v0)),
        0 <= i < v0.len(),
    ensures
        encodes_at(b, pos + 8 + strs_off(v0, i), str_le(v0[i]@)),
        strs_off(v0, i + 1) == strs_off(v0, i) + str_le(v0[i]@).len(),
        0 <= strs_off(v0, i),
    decreases 0int,
{
    lemma_strvec_hyp_parts(b, pos, v0);
    lemma_strs_le_element(v0, i);
}

/// The whole encoding of each table: its count, then its entries.
pub open spec fn fp_table_le(t: Seq<(String, String)>) -> Seq<u8> {
    u64_le(t.len() as u64) + fp_entries_le(t)
}

pub open spec fn sym_table_le(t: Seq<(String, Symbol)>) -> Seq<u8> {
    u64_le(t.len() as u64) + sym_entries_le(t)
}

pub open spec fn unres_table_le(t: Seq<(String, Vec<String>)>) -> Seq<u8> {
    u64_le(t.len() as u64) + unres_entries_le(t)
}

/// The count field of a fingerprint-table hypothesis.
#[verifier::spinoff_prover]
proof fn lemma_fp_hyp_count(b: Seq<u8>, pos: int, t0: Seq<(String, String)>)
    requires
        encodes_at(b, pos, fp_table_le(t0)),
        b.len() <= usize::MAX,
    ensures
        pos + 8 <= b.len(),
        t0.len() <= usize::MAX,
        b.subrange(pos, pos + 8) == u64_le(t0.len() as u64),
        le_val8(b.subrange(pos, pos + 8)) == t0.len() as int,
        le_val8(b.subrange(pos, pos + 8)) * 16 <= b.len(),
        fp_off(t0, 0) == 0,
        fp_off(t0, t0.len() as int) == fp_entries_le(t0).len(),
        fp_table_le(t0).len() == 8 + fp_entries_le(t0).len(),
{
    let l = fp_table_le(t0).len() as int;
    lemma_fp_entries_min(t0);
    lemma_sub_of_sub(b, pos, l, 0, 8);
    assert(fp_table_le(t0).subrange(0, 8) =~= u64_le(t0.len() as u64));
    lemma_u64_le_val(t0.len() as u64);
    assert(t0.take(0) =~= Seq::<(String, String)>::empty());
    assert(t0.take(t0.len() as int) =~= t0);
}

/// One step of walking a fingerprint table: the i-th entry's two strings
/// encode at their cumulative offsets.
#[verifier::spinoff_prover]
proof fn lemma_fp_hyp_step(b: Seq<u8>, pos: int, t0: Seq<(String, String)>, i: int)
    requires
        encodes_at(b, pos, fp_table_le(t0)),
        0 <= i < t0.len(),
    ensures
        0 <= fp_off(t0, i),
        encodes_at(b, pos + 8 + fp_off(t0, i), str_le(t0[i].0@)),
        encodes_at(
            b,
            pos + 8 + fp_off(t0, i) + str_le(t0[i].0@).len(),
            str_le(t0[i].1@),
        ),
        fp_off(t0, i + 1) == fp_off(t0, i) + str_le(t0[i].0@).len() + str_le(t0[i].1@).len(),
{
    let l = fp_table_le(t0).len() as int;
    lemma_fp_entries_element(t0, i);
    lemma_sub_of_sub(b, pos, l, 8 + fp_off(t0, i), 8 + fp_off(t0, i) + str_le(t0[i].0@).len());
    assert(fp_table_le(t0).subrange(8 + fp_off(t0, i), 8 + fp_off(t0, i) + str_le(
        t0[i].0@,
    ).len() as int) =~= fp_entries_le(t0).subrange(fp_off(t0, i), fp_off(t0, i) + str_le(
        t0[i].0@,
    ).len() as int));
    lemma_sub_of_sub(
        b,
        pos,
        l,
        8 + fp_off(t0, i) + str_le(t0[i].0@).len(),
        8 + fp_off(t0, i + 1),
    );
    assert(fp_table_le(t0).subrange(
        8 + fp_off(t0, i) + str_le(t0[i].0@).len(),
        8 + fp_off(t0, i + 1),
    ) =~= fp_entries_le(t0).subrange(fp_off(t0, i) + str_le(t0[i].0@).len(), fp_off(t0, i + 1)));
}

/// The count field of a symbol-table hypothesis.
#[verifier::spinoff_prover]
proof fn lemma_sym_hyp_count(b: Seq<u8>, pos: int, t0: Seq<(String, Symbol)>)
    requires
        encodes_at(b, pos, sym_table_le(t0)),
        b.len() <= usize::MAX,
    ensures
        pos + 8 <= b.len(),
        t0.len() <= usize::MAX,
        b.subrange(pos, pos + 8) == u64_le(t0.len() as u64),
        le_val8(b.subrange(pos, pos + 8)) == t0.len() as int,
        le_val8(b.subrange(pos, pos + 8)) * 8 <= b.len(),
        sym_toff(t0, 0) == 0,
        sym_toff(t0, t0.len() as int) == sym_entries_le(t0).len(),
        sym_table_le(t0).len() == 8 + sym_entries_le(t0).len(),
{
    let l = sym_table_le(t0).len() as int;
    lemma_sym_entries_min(t0);
    lemma_sub_of_sub(b, pos, l, 0, 8);
    assert(sym_table_le(t0).subrange(0, 8) =~= u64_le(t0.len() as u64));
    lemma_u64_le_val(t0.len() as u64);
    assert(t0.take(0) =~= Seq::<(String, Symbol)>::empty());
    assert(t0.take(t0.len() as int) =~= t0);
}

/// One step of walking a symbol table: the i-th entry's identity and symbol
/// encode at their cumulative offsets.
#[verifier::rlimit(100)]
#[verifier::spinoff_prover]
proof fn lemma_sym_hyp_step(b: Seq<u8>, pos: int, t0: Seq<(String, Symbol)>, i: int)
    requires
        encodes_at(b, pos, sym_table_le(t0)),
        0 <= i < t0.len(),
    ensures
        0 <= sym_toff(t0, i),
        encodes_at(b, pos + 8 + sym_toff(t0, i), str_le(t0[i].0@)),
        encodes_at(
            b,
            pos + 8 + sym_toff(t0, i) + str_le(t0[i].0@).len(),
            symbol_le(t0[i].1),
        ),
        sym_toff(t0, i + 1) == sym_toff(t0, i) + str_le(t0[i].0@).len() + symbol_le(t0[i].1).len(),
{
    let l = sym_table_le(t0).len() as int;
    lemma_sym_entries_element(t0, i);
    lemma_sub_of_sub(b, pos, l, 8 + sym_toff(t0, i), 8 + sym_toff(t0, i) + str_le(t0[i].0@).len());
    assert(sym_table_le(t0).subrange(8 + sym_toff(t0, i), 8 + sym_toff(t0, i) + str_le(
        t0[i].0@,
    ).len() as int) =~= sym_entries_le(t0).subrange(sym_toff(t0, i), sym_toff(t0, i) + str_le(
        t0[i].0@,
    ).len() as int));
    lemma_sub_of_sub(
        b,
        pos,
        l,
        8 + sym_toff(t0, i) + str_le(t0[i].0@).len(),
        8 + sym_toff(t0, i + 1),
    );
    assert(sym_table_le(t0).subrange(
        8 + sym_toff(t0, i) + str_le(t0[i].0@).len(),
        8 + sym_toff(t0, i + 1),
    ) =~= sym_entries_le(t0).subrange(
        sym_toff(t0, i) + str_le(t0[i].0@).len(),
        sym_toff(t0, i + 1),
    ));
}

/// The count field of an unresolved-table hypothesis.
#[verifier::spinoff_prover]
proof fn lemma_unres_hyp_count(b: Seq<u8>, pos: int, t0: Seq<(String, Vec<String>)>)
    requires
        encodes_at(b, pos, unres_table_le(t0)),
        b.len() <= usize::MAX,
    ensures
        pos + 8 <= b.len(),
        t0.len() <= usize::MAX,
        b.subrange(pos, pos + 8) == u64_le(t0.len() as u64),
        le_val8(b.subrange(pos, pos + 8)) == t0.len() as int,
        le_val8(b.subrange(pos, pos + 8)) * 8 <= b.len(),
        unres_off(t0, 0) == 0,
        unres_off(t0, t0.len() as int) == unres_entries_le(t0).len(),
        unres_table_le(t0).len() == 8 + unres_entries_le(t0).len(),
{
    let l = unres_table_le(t0).len() as int;
    lemma_unres_entries_min(t0);
    lemma_sub_of_sub(b, pos, l, 0, 8);
    assert(unres_table_le(t0).subrange(0, 8) =~= u64_le(t0.len() as u64));
    lemma_u64_le_val(t0.len() as u64);
    assert(t0.take(0) =~= Seq::<(String, Vec<String>)>::empty());
    assert(t0.take(t0.len() as int) =~= t0);
}

/// One step of walking an unresolved table: the i-th entry's caller and name
/// list encode at their cumulative offsets.
#[verifier::spinoff_prover]
proof fn lemma_unres_hyp_step(b: Seq<u8>, pos: int, t0: Seq<(String, Vec<String>)>, i: int)
    requires
        encodes_at(b, pos, unres_table_le(t0)),
        0 <= i < t0.len(),
    ensures
        0 <= unres_off(t0, i),
        encodes_at(b, pos + 8 + unres_off(t0, i), str_le(t0[i].0@)),
        encodes_at(
            b,
            pos + 8 + unres_off(t0, i) + str_le(t0[i].0@).len(),
            strvec_le(t0[i].1@),
        ),
        unres_off(t0, i + 1) == unres_off(t0, i) + str_le(t0[i].0@).len() + strvec_le(
            t0[i].1@,
        ).len(),
{
    let l = unres_table_le(t0).len() as int;
    lemma_unres_entries_element(t0, i);
    lemma_sub_of_sub(
        b,
        pos,
        l,
        8 + unres_off(t0, i),
        8 + unres_off(t0, i) + str_le(t0[i].0@).len(),
    );
    assert(unres_table_le(t0).subrange(8 + unres_off(t0, i), 8 + unres_off(t0, i) + str_le(
        t0[i].0@,
    ).len() as int) =~= unres_entries_le(t0).subrange(unres_off(t0, i), unres_off(t0, i) + str_le(
        t0[i].0@,
    ).len() as int));
    lemma_sub_of_sub(
        b,
        pos,
        l,
        8 + unres_off(t0, i) + str_le(t0[i].0@).len(),
        8 + unres_off(t0, i + 1),
    );
    assert(unres_table_le(t0).subrange(
        8 + unres_off(t0, i) + str_le(t0[i].0@).len(),
        8 + unres_off(t0, i + 1),
    ) =~= unres_entries_le(t0).subrange(
        unres_off(t0, i) + str_le(t0[i].0@).len(),
        unres_off(t0, i + 1),
    ));
}

/// Reads the fingerprint table; the consumed range is its exact encoding.
#[verifier::rlimit(100)]
#[verifier::spinoff_prover]
fn read_fp_table(bytes: &Vec<u8>, pos: usize) -> (r: Option<(Vec<(String, String)>, usize)>)
    ensures
        match r {
            Some(vp) => pos <= vp.1 <= bytes@.len() && bytes@.subrange(pos as int, vp.1 as int)
                == fp_table_le(vp.0@),
            None => true,
        },
        forall|t0: Seq<(String, String)>|
            #[trigger] encodes_at(bytes@, pos as int, fp_table_le(t0)) ==> (r matches Some(vp)
                && vp.0@.len() == t0.len() && (forall|j: int|
                0 <= j < t0.len() ==> (#[trigger] vp.0@[j]).0@ == t0[j].0@ && vp.0@[j].1@
                    == t0[j].1@) && vp.1 == pos + fp_table_le(t0).len()),
{
    let blen = bytes.len();
    let (n0, mut p) = match read_count(bytes, pos, 16) {
        Some(x) => x,
        None => {
            proof {
                assert forall|t0: Seq<(String, String)>|
                    !#[trigger] encodes_at(bytes@, pos as int, fp_table_le(t0)) by {
                    if encodes_at(bytes@, pos as int, fp_table_le(t0)) {
                        lemma_fp_hyp_count(bytes@, pos as int, t0);
                    }
                }
            }
            return None;
        },
    };
    let mut fp: Vec<(String, String)> = Vec::new();
    let mut i: usize = 0;
    proof {
        assert forall|t0: Seq<(String, String)>|
            #[trigger] encodes_at(bytes@, pos as int, fp_table_le(t0)) implies (n0 == t0.len()
            && fp_off(t0, 0) == 0) by {
            lemma_fp_hyp_count(bytes@, pos as int, t0);
        }
    }
    while i < n0
        invariant
            i <= n0,
            fp@.len() == i,
            pos + 8 <= bytes@.len(),
            pos + 8 <= p <= bytes@.len(),
            n0 as int == le_val8(bytes@.subrange(pos as int, pos + 8)),
            bytes@.subrange(pos + 8, p as int) == fp_entries_le(fp@),
            forall|t0: Seq<(String, String)>|
                #[trigger] encodes_at(bytes@, pos as int, fp_table_le(t0)) ==> (n0 == t0.len() && p
                    == pos + 8 + fp_off(t0, i as int) && (forall|j: int|
                    0 <= j < i ==> (#[trigger] fp@[j]).0@ == t0[j].0@ && fp@[j].1@ == t0[j].1@)),
        decreases n0 - i,
    {
        let ghost pre_i = i as int;
        let ghost pre_p = p as int;
        let (a, p1) = match read_string(bytes, p) {
            Some(x) => x,
            None => {
                proof {
                    assert forall|t0: Seq<(String, String)>|
                        !#[trigger] encodes_at(bytes@, pos as int, fp_table_le(t0)) by {
                        if encodes_at(bytes@, pos as int, fp_table_le(t0)) {
                            lemma_fp_hyp_step(bytes@, pos as int, t0, pre_i);
                        }
                    }
                }
                return None;
            },
        };
        let (b, p2) = match read_string(bytes, p1) {
            Some(x) => x,
            None => {
                proof {
                    assert forall|t0: Seq<(String, String)>|
                        !#[trigger] encodes_at(bytes@, pos as int, fp_table_le(t0)) by {
                        if encodes_at(bytes@, pos as int, fp_table_le(t0)) {
                            lemma_fp_hyp_step(bytes@, pos as int, t0, pre_i);
                        }
                    }
                }
                return None;
            },
        };
        let ghost oldfp = fp@;
        fp.push((a, b));
        proof {
            assert(fp@.drop_last() =~= oldfp);
            lemma_subrange_concat(bytes@, pos + 8, pre_p, p1 as int);
            lemma_subrange_concat(bytes@, pos + 8, p1 as int, p2 as int);
            assert(fp_entries_le(fp@) == fp_entries_le(oldfp) + str_le(fp@.last().0@) + str_le(
                fp@.last().1@,
            ));
            assert forall|t0: Seq<(String, String)>|
                #[trigger] encodes_at(bytes@, pos as int, fp_table_le(t0)) implies (n0 == t0.len()
                && p2 == pos + 8 + fp_off(t0, pre_i + 1) && (forall|j: int|
                0 <= j < pre_i + 1 ==> (#[trigger] fp@[j]).0@ == t0[j].0@ && fp@[j].1@
                    == t0[j].1@)) by {
                lemma_fp_hyp_step(bytes@, pos as int, t0, pre_i);
                assert(a@ == t0[pre_i].0@ && b@ == t0[pre_i].1@);
                assert forall|j: int|
                    0 <= j < pre_i + 1 implies (#[trigger] fp@[j]).0@ == t0[j].0@ && fp@[j].1@
                    == t0[j].1@ by {
                    if j < pre_i {
                        assert(oldfp[j].0@ == t0[j].0@ && oldfp[j].1@ == t0[j].1@);
                    }
                }
            }
        }
        p = p2;
        i = i + 1;
    }
    proof {
        lemma_u64_le_val(fp@.len() as u64);
        lemma_le8_inverse(bytes@.subrange(pos as int, pos + 8), fp@.len() as u64);
        lemma_subrange_concat(bytes@, pos as int, pos + 8, p as int);
        assert forall|t0: Seq<(String, String)>|
            #[trigger] encodes_at(bytes@, pos as int, fp_table_le(t0)) implies (p == pos
            + fp_table_le(t0).len()) by {
            lemma_fp_hyp_count(bytes@, pos as int, t0);
        }
    }
    Some((fp, p))
}

/// Reads the symbol table; the consumed range is its exact encoding./// Reads the symbol table; the consumed range is its exact encoding.
#[verifier::rlimit(100)]
#[verifier::spinoff_prover]
fn read_sym_table(bytes: &Vec<u8>, pos: usize) -> (r: Option<(Vec<(String, Symbol)>, usize)>)
    ensures
        match r {
            Some(vp) => pos <= vp.1 <= bytes@.len() && bytes@.subrange(pos as int, vp.1 as int)
                == sym_table_le(vp.0@),
            None => true,
        },
        forall|t0: Seq<(String, Symbol)>|
            #[trigger] encodes_at(bytes@, pos as int, sym_table_le(t0)) ==> (r matches Some(vp)
                && vp.0@.len() == t0.len() && (forall|j: int|
                0 <= j < t0.len() ==> (#[trigger] vp.0@[j]).0@ == t0[j].0@ && sym_views_eq(
                    vp.0@[j].1,
                    t0[j].1,
                )) && vp.1 == pos + sym_table_le(t0).len()),
{
    let blen = bytes.len();
    let (n1, mut p) = match read_count(bytes, pos, 8) {
        Some(x) => x,
        None => {
            proof {
                assert forall|t0: Seq<(String, Symbol)>|
                    !#[trigger] encodes_at(bytes@, pos as int, sym_table_le(t0)) by {
                    if encodes_at(bytes@, pos as int, sym_table_le(t0)) {
                        lemma_sym_hyp_count(bytes@, pos as int, t0);
                    }
                }
            }
            return None;
        },
    };
    let mut st: Vec<(String, Symbol)> = Vec::new();
    let mut j: usize = 0;
    proof {
        assert forall|t0: Seq<(String, Symbol)>|
            #[trigger] encodes_at(bytes@, pos as int, sym_table_le(t0)) implies (n1 == t0.len()
            && sym_toff(t0, 0) == 0) by {
            lemma_sym_hyp_count(bytes@, pos as int, t0);
        }
    }
    while j < n1
        invariant
            j <= n1,
            st@.len() == j,
            pos + 8 <= bytes@.len(),
            pos + 8 <= p <= bytes@.len(),
            n1 as int == le_val8(bytes@.subrange(pos as int, pos + 8)),
            bytes@.subrange(pos + 8, p as int) == sym_entries_le(st@),
            forall|t0: Seq<(String, Symbol)>|
                #[trigger] encodes_at(bytes@, pos as int, sym_table_le(t0)) ==> (n1 == t0.len() && p
                    == pos + 8 + sym_toff(t0, j as int) && (forall|q: int|
                    0 <= q < j ==> (#[trigger] st@[q]).0@ == t0[q].0@ && sym_views_eq(
                        st@[q].1,
                        t0[q].1,
                    ))),
        decreases n1 - j,
    {
        let ghost pre_j = j as int;
        let ghost pre_p = p as int;
        let (a, p1) = match read_string(bytes, p) {
            Some(x) => x,
            None => {
                proof {
                    assert forall|t0: Seq<(String, Symbol)>|
                        !#[trigger] encodes_at(bytes@, pos as int, sym_table_le(t0)) by {
                        if encodes_at(bytes@, pos as int, sym_table_le(t0)) {
                            lemma_sym_hyp_step(bytes@, pos as int, t0, pre_j);
                        }
                    }
                }
                return None;
            },
        };
        let (sym, p2) = match read_symbol(bytes, p1) {
            Some(x) => x,
            None => {
                proof {
                    assert forall|t0: Seq<(String, Symbol)>|
                        !#[trigger] encodes_at(bytes@, pos as int, sym_table_le(t0)) by {
                        if encodes_at(bytes@, pos as int, sym_table_le(t0)) {
                            lemma_sym_hyp_step(bytes@, pos as int, t0, pre_j);
                        }
                    }
                }
                return None;
            },
        };
        let ghost oldst = st@;
        st.push((a, sym));
        proof {
            assert(st@.drop_last() =~= oldst);
            lemma_subrange_concat(bytes@, pos + 8, pre_p, p1 as int);
            lemma_subrange_concat(bytes@, pos + 8, p1 as int, p2 as int);
            assert(sym_entries_le(st@) == sym_entries_le(oldst) + str_le(st@.last().0@) + symbol_le(
                st@.last().1,
            ));
            assert forall|t0: Seq<(String, Symbol)>|
                #[trigger] encodes_at(bytes@, pos as int, sym_table_le(t0)) implies (n1 == t0.len()
                && p2 == pos + 8 + sym_toff(t0, pre_j + 1) && (forall|q: int|
                0 <= q < pre_j + 1 ==> (#[trigger] st@[q]).0@ == t0[q].0@ && sym_views_eq(
                    st@[q].1,
                    t0[q].1,
                ))) by {
                lemma_sym_hyp_step(bytes@, pos as int, t0, pre_j);
                assert(a@ == t0[pre_j].0@ && sym_views_eq(sym, t0[pre_j].1));
                assert forall|q: int|
                    0 <= q < pre_j + 1 implies (#[trigger] st@[q]).0@ == t0[q].0@ && sym_views_eq(
                    st@[q].1,
                    t0[q].1,
                ) by {
                    if q < pre_j {
                        assert(oldst[q].0@ == t0[q].0@ && sym_views_eq(oldst[q].1, t0[q].1));
                    }
                }
            }
        }
        p = p2;
        j = j + 1;
    }
    proof {
        lemma_u64_le_val(st@.len() as u64);
        lemma_le8_inverse(bytes@.subrange(pos as int, pos + 8), st@.len() as u64);
        lemma_subrange_concat(bytes@, pos as int, pos + 8, p as int);
        assert forall|t0: Seq<(String, Symbol)>|
            #[trigger] encodes_at(bytes@, pos as int, sym_table_le(t0)) implies (p == pos
            + sym_table_le(t0).len()) by {
            lemma_sym_hyp_count(bytes@, pos as int, t0);
        }
    }
    Some((st, p))
}

/// Reads the unresolved table; the consumed range is its exact encoding./// Reads the unresolved table; the consumed range is its exact encoding.
#[verifier::rlimit(100)]
#[verifier::spinoff_prover]
fn read_unres_table(bytes: &Vec<u8>, pos: usize) -> (r: Option<
    (Vec<(String, Vec<String>)>, usize),
>)
    ensures
        match r {
            Some(vp) => pos <= vp.1 <= bytes@.len() && bytes@.subrange(pos as int, vp.1 as int)
                == unres_table_le(vp.0@),
            None => true,
        },
        forall|t0: Seq<(String, Vec<String>)>|
            #[trigger] encodes_at(bytes@, pos as int, unres_table_le(t0)) ==> (r matches Some(vp)
                && vp.0@.len() == t0.len() && (forall|j: int|
                0 <= j < t0.len() ==> (#[trigger] vp.0@[j]).0@ == t0[j].0@ && vp.0@[j].1@.len()
                    == t0[j].1@.len() && (forall|q: int|
                    0 <= q < t0[j].1@.len() ==> (#[trigger] vp.0@[j].1@[q])@ == t0[j].1@[q]@))
                && vp.1 == pos + unres_table_le(t0).len()),
{
    let blen = bytes.len();
    let (n2, mut p) = match read_count(bytes, pos, 8) {
        Some(x) => x,
        None => {
            proof {
                assert forall|t0: Seq<(String, Vec<String>)>|
                    !#[trigger] encodes_at(bytes@, pos as int, unres_table_le(t0)) by {
                    if encodes_at(bytes@, pos as int, unres_table_le(t0)) {
                        lemma_unres_hyp_count(bytes@, pos as int, t0);
                    }
                }
            }
            return None;
        },
    };
    let mut un: Vec<(String, Vec<String>)> = Vec::new();
    let mut k: usize = 0;
    proof {
        assert forall|t0: Seq<(String, Vec<String>)>|
            #[trigger] encodes_at(bytes@, pos as int, unres_table_le(t0)) implies (n2 == t0.len()
            && unres_off(t0, 0) == 0) by {
            lemma_unres_hyp_count(bytes@, pos as int, t0);
        }
    }
    while k < n2
        invariant
            k <= n2,
            un@.len() == k,
            pos + 8 <= bytes@.len(),
            pos + 8 <= p <= bytes@.len(),
            n2 as int == le_val8(bytes@.subrange(pos as int, pos + 8)),
            bytes@.subrange(pos + 8, p as int) == unres_entries_le(un@),
            forall|t0: Seq<(String, Vec<String>)>|
                #[trigger] encodes_at(bytes@, pos as int, unres_table_le(t0)) ==> (n2 == t0.len()
                    && p == pos + 8 + unres_off(t0, k as int) && (forall|q: int|
                    0 <= q < k ==> (#[trigger] un@[q]).0@ == t0[q].0@ && un@[q].1@.len()
                        == t0[q].1@.len() && (forall|x: int|
                        0 <= x < t0[q].1@.len() ==> (#[trigger] un@[q].1@[x])@ == t0[q].1@[x]@))),
        decreases n2 - k,
    {
        let ghost pre_k = k as int;
        let ghost pre_p = p as int;
        let (a, p1) = match read_string(bytes, p) {
            Some(x) => x,
            None => {
                proof {
                    assert forall|t0: Seq<(String, Vec<String>)>|
                        !#[trigger] encodes_at(bytes@, pos as int, unres_table_le(t0)) by {
                        if encodes_at(bytes@, pos as int, unres_table_le(t0)) {
                            lemma_unres_hyp_step(bytes@, pos as int, t0, pre_k);
                        }
                    }
                }
                return None;
            },
        };
        let (names, p2) = match read_string_vec(bytes, p1) {
            Some(x) => x,
            None => {
                proof {
                    assert forall|t0: Seq<(String, Vec<String>)>|
                        !#[trigger] encodes_at(bytes@, pos as int, unres_table_le(t0)) by {
                        if encodes_at(bytes@, pos as int, unres_table_le(t0)) {
                            lemma_unres_hyp_step(bytes@, pos as int, t0, pre_k);
                        }
                    }
                }
                return None;
            },
        };
        let ghost oldun = un@;
        un.push((a, names));
        proof {
            assert(un@.drop_last() =~= oldun);
            lemma_subrange_concat(bytes@, pos + 8, pre_p, p1 as int);
            lemma_subrange_concat(bytes@, pos + 8, p1 as int, p2 as int);
            assert(unres_entries_le(un@) == unres_entries_le(oldun) + str_le(un@.last().0@)
                + strvec_le(un@.last().1@));
            assert forall|t0: Seq<(String, Vec<String>)>|
                #[trigger] encodes_at(bytes@, pos as int, unres_table_le(t0)) implies (n2
                == t0.len() && p2 == pos + 8 + unres_off(t0, pre_k + 1) && (forall|q: int|
                0 <= q < pre_k + 1 ==> (#[trigger] un@[q]).0@ == t0[q].0@ && un@[q].1@.len()
                    == t0[q].1@.len() && (forall|x: int|
                    0 <= x < t0[q].1@.len() ==> (#[trigger] un@[q].1@[x])@ == t0[q].1@[x]@))) by {
                lemma_unres_hyp_step(bytes@, pos as int, t0, pre_k);
                assert(a@ == t0[pre_k].0@);
                assert(names@.len() == t0[pre_k].1@.len() && (forall|x: int|
                    0 <= x < t0[pre_k].1@.len() ==> (#[trigger] names@[x])@ == t0[pre_k].1@[x]@));
                assert forall|q: int|
                    0 <= q < pre_k + 1 implies (#[trigger] un@[q]).0@ == t0[q].0@ && un@[q].1@.len()
                    == t0[q].1@.len() && (forall|x: int|
                    0 <= x < t0[q].1@.len() ==> (#[trigger] un@[q].1@[x])@ == t0[q].1@[x]@) by {
                    if q < pre_k {
                        assert(oldun[q].0@ == t0[q].0@ && oldun[q].1@.len() == t0[q].1@.len() && (
                        forall|x: int|
                            0 <= x < t0[q].1@.len() ==> (#[trigger] oldun[q].1@[x])@
                                == t0[q].1@[x]@));
                    }
                }
            }
        }
        p = p2;
        k = k + 1;
    }
    proof {
        lemma_u64_le_val(un@.len() as u64);
        lemma_le8_inverse(bytes@.subrange(pos as int, pos + 8), un@.len() as u64);
        lemma_subrange_concat(bytes@, pos as int, pos + 8, p as int);
        assert forall|t0: Seq<(String, Vec<String>)>|
            #[trigger] encodes_at(bytes@, pos as int, unres_table_le(t0)) implies (p == pos
            + unres_table_le(t0).len()) by {
            lemma_unres_hyp_count(bytes@, pos as int, t0);
        }
    }
    Some((un, p))
}

/// The two index tables hold the same entries, read at the view level.
pub open spec fn fp_views_eq(a: Seq<(String, String)>, b: Seq<(String, String)>) -> bool {
    a.len() == b.len() && forall|i: int|
        0 <= i < a.len() ==> (#[trigger] a[i]).0@ == b[i].0@ && a[i].1@ == b[i].1@
}

pub open spec fn st_views_eq(a: Seq<(String, Symbol)>, b: Seq<(String, Symbol)>) -> bool {
    a.len() == b.len() && forall|i: int|
        0 <= i < a.len() ==> (#[trigger] a[i]).0@ == b[i].0@ && sym_views_eq(a[i].1, b[i].1)
}

pub open spec fn un_views_eq(
    a: Seq<(String, Vec<String>)>,
    b: Seq<(String, Vec<String>)>,
) -> bool {
    a.len() == b.len() && forall|i: int|
        0 <= i < a.len() ==> (#[trigger] a[i]).0@ == b[i].0@ && a[i].1@.len() == b[i].1@.len() && (
        forall|x: int| 0 <= x < a[i].1@.len() ==> (#[trigger] a[i].1@[x])@ == b[i].1@[x]@)
}

/// Both indexes hold the same three tables, entry for entry at the view
/// level (the derived name map is rebuilt, not compared).
pub open spec fn tables_like(a: Indexer, b: Indexer) -> bool {
    &&& fp_views_eq(a.file_hashes.table(), b.file_hashes.table())
    &&& st_views_eq(a.symbol_store.table(), b.symbol_store.table())
    &&& un_views_eq(a.dependency_resolver.table(), b.dependency_resolver.table())
}

/// A well-formed dependency graph stays well formed across a table that
/// holds the same entries at the view level.
#[verifier::rlimit(100)]
#[verifier::spinoff_prover]
proof fn lemma_graph_wf_views(t1: Seq<(String, Symbol)>, t2: Seq<(String, Symbol)>)
    requires
        unique_keys(t1),
        st_views_eq(t1, t2),
        graph_wf(t1),
    ensures
        graph_wf(t2),
        unique_keys(t2),
{
    assert(unique_keys(t2)) by {
        assert forall|a: int, b: int| 0 <= a < b < t2.len() implies t2[a].0@ != t2[b].0@ by {
            assert(t1[a].0@ != t1[b].0@);
        }
    }
    assert forall|k: Seq<char>| #[trigger] has_key(t2, k) == has_key(t1, k) by {
        if has_key(t1, k) {
            let i = crate::assoc::index_of_key(t1, k);
            assert(t2[i].0@ == k);
        }
        if has_key(t2, k) {
            let i = crate::assoc::index_of_key(t2, k);
            assert(t1[i].0@ == k);
        }
    }
    assert forall|i: int, d: Seq<char>|
        0 <= i < t2.len() && #[trigger] contains_str(t2[i].1.dependencies@, d) implies has_key(
        t2,
        d,
    ) && contains_str(crate::assoc::value_of(t2, d).used_by@, t2[i].0@) by {
        assert(sym_views_eq(t1[i].1, t2[i].1));
        assert(contains_str(t1[i].1.dependencies@, d)) by {
            let x = choose|x: int|
                0 <= x < t2[i].1.dependencies@.len() && (t2[i].1.dependencies@[x])@ == d;
            assert((t1[i].1.dependencies@[x])@ == d);
        }
        assert(has_key(t1, d) && contains_str(crate::assoc::value_of(t1, d).used_by@, t1[i].0@));
        let q = crate::assoc::index_of_key(t1, d);
        crate::assoc::lemma_key_at(t1, q);
        assert(t2[q].0@ == d);
        crate::assoc::lemma_key_at(t2, q);
        assert(sym_views_eq(t1[q].1, t2[q].1));
        assert(contains_str(t2[q].1.used_by@, t2[i].0@)) by {
            let x = choose|x: int|
                0 <= x < t1[q].1.used_by@.len() && (t1[q].1.used_by@[x])@ == t1[i].0@;
            assert((t2[q].1.used_by@[x])@ == t1[i].0@);
        }
    }
    assert forall|i: int, u: Seq<char>|
        0 <= i < t2.len() && #[trigger] contains_str(t2[i].1.used_by@, u) implies has_key(t2, u)
        && contains_str(crate::assoc::value_of(t2, u).dependencies@, t2[i].0@) by {
        assert(sym_views_eq(t1[i].1, t2[i].1));
        assert(contains_str(t1[i].1.used_by@, u)) by {
            let x = choose|x: int| 0 <= x < t2[i].1.used_by@.len() && (t2[i].1.used_by@[x])@ == u;
            assert((t1[i].1.used_by@[x])@ == u);
        }
        assert(has_key(t1, u) && contains_str(crate::assoc::value_of(t1, u).dependencies@,
        t1[i].0@));
        let q = crate::assoc::index_of_key(t1, u);
        crate::assoc::lemma_key_at(t1, q);
        assert(t2[q].0@ == u);
        crate::assoc::lemma_key_at(t2, q);
        assert(sym_views_eq(t1[q].1, t2[q].1));
        assert(contains_str(t2[q].1.dependencies@, t2[i].0@)) by {
            let x = choose|x: int|
                0 <= x < t1[q].1.dependencies@.len() && (t1[q].1.dependencies@[x])@ == t1[i].0@;
            assert((t2[q].1.dependencies@[x])@ == t1[i].0@);
        }
    }
    assert forall|i: int|
        0 <= i < t2.len() implies !contains_str((#[trigger] t2[i]).1.dependencies@, t2[i].0@)
        && !contains_str(t2[i].1.used_by@, t2[i].0@) by {
        assert(sym_views_eq(t1[i].1, t2[i].1));
        if contains_str(t2[i].1.dependencies@, t2[i].0@) {
            let x = choose|x: int|
                0 <= x < t2[i].1.dependencies@.len() && (t2[i].1.dependencies@[x])@ == t2[i].0@;
            assert((t1[i].1.dependencies@[x])@ == t1[i].0@);
            assert(contains_str(t1[i].1.dependencies@, t1[i].0@));
        }
        if contains_str(t2[i].1.used_by@, t2[i].0@) {
            let x = choose|x: int|
                0 <= x < t2[i].1.used_by@.len() && (t2[i].1.used_by@[x])@ == t2[i].0@;
            assert((t1[i].1.used_by@[x])@ == t1[i].0@);
            assert(contains_str(t1[i].1.used_by@, t1[i].0@));
        }
    }
}

/// What a whole-snapshot hypothesis gives: the three tables, one after the
/// other, filling the bytes exactly.
#[verifier::rlimit(100)]
#[verifier::spinoff_prover]
proof fn lemma_index_hyp_parts(b: Seq<u8>, ix0: Indexer)
    requires
        b == index_le(ix0),
    ensures
        encodes_at(b, 0, fp_table_le(ix0.file_hashes.table())),
        encodes_at(
            b,
            fp_table_le(ix0.file_hashes.table()).len() as int,
            sym_table_le(ix0.symbol_store.table()),
        ),
        encodes_at(
            b,
            fp_table_le(ix0.file_hashes.table()).len() + sym_table_le(
                ix0.symbol_store.table(),
            ).len() as int,
            unres_table_le(ix0.dependency_resolver.table()),
        ),
        b.len() == fp_table_le(ix0.file_hashes.table()).len() + sym_table_le(
            ix0.symbol_store.table(),
        ).len() + unres_table_le(ix0.dependency_resolver.table()).len() as int,
{
    let fpl = fp_table_le(ix0.file_hashes.table());
    let stl = sym_table_le(ix0.symbol_store.table());
    let unl = unres_table_le(ix0.dependency_resolver.table());
    assert(b =~= fpl + stl + unl);
    assert(b.subrange(0, fpl.len() as int) =~= fpl);
    assert(b.subrange(fpl.len() as int, fpl.len() + stl.len() as int) =~= stl);
    assert(b.subrange(
        fpl.len() + stl.len() as int,
        fpl.len() + stl.len() + unl.len() as int,
    ) =~= unl);
}

/// Whether every entry's key is its symbol's identity and every edge list
/// is duplicate free.
#[verifier::rlimit(100)]
#[verifier::spinoff_prover]
fn check_symbol_entries(st: &Vec<(String, Symbol)>) -> (r: bool)
    ensures
        r == forall|a: int|
            0 <= a < st@.len() ==> ((#[trigger] st@[a]).0@ == st@[a].1.identity()
                && st@[a].1.edges_wf()),
{
    let nst = st.len();
    let mut v: usize = 0;
    while v < nst
        invariant
            nst == st@.len(),
            v <= nst,
            forall|a: int|
                0 <= a < v ==> ((#[trigger] st@[a]).0@ == st@[a].1.identity()
                    && st@[a].1.edges_wf()),
        decreases nst - v,
    {
        let h = st[v].1.hash();
        if !(st[v].0 == h) {
            proof {
                assert(st@[v as int].0@ != st@[v as int].1.identity());
            }
            return false;
        }
        if !check_distinct(&st[v].1.dependencies) {
            proof {
                assert(!st@[v as int].1.edges_wf());
            }
            return false;
        }
        if !check_distinct(&st[v].1.used_by) {
            proof {
                assert(!st@[v as int].1.edges_wf());
            }
            return false;
        }
        proof {
            assert(st@[v as int].0@ == h@);
            assert(st@[v as int].0@ == st@[v as int].1.identity());
            assert(st@[v as int].1.edges_wf());
            assert forall|a: int|
                0 <= a < v + 1 implies ((#[trigger] st@[a]).0@ == st@[a].1.identity()
                && st@[a].1.edges_wf()) by {
                if a < v {
                    assert(st@[a].0@ == st@[a].1.identity() && st@[a].1.edges_wf());
                }
            }
        }
        v = v + 1;
    }
    true
}

/// Whether every unresolved entry's caller is a stored symbol.
fn check_callers_stored(un: &Vec<(String, Vec<String>)>, st: &Vec<(String, Symbol)>) -> (r: bool)
    ensures
        r == forall|a: int| 0 <= a < un@.len() ==> has_key(st@, (#[trigger] un@[a]).0@),
{
    let nun = un.len();
    let mut w: usize = 0;
    while w < nun
        invariant
            nun == un@.len(),
            w <= nun,
            forall|a: int| 0 <= a < w ==> has_key(st@, (#[trigger] un@[a]).0@),
        decreases nun - w,
    {
        match find_key(st, &un[w].0) {
            Some(x) => {
                proof {
                    assert(has_key(st@, un@[w as int].0@));
                }
            },
            None => {
                return false;
            },
        }
        w = w + 1;
    }
    true
}

/// Deserializes and validates a snapshot: the three tables are read back and
/// every invariant of the index is checked, so a successful load is a
/// well-formed index whose encoding is exactly the given bytes; and the
/// snapshot of any well-formed index always loads, entry for entry — the
/// round trip through `encode_index`. Damaged or trailing bytes are
/// rejected.
#[verifier::rlimit(100)]
#[verifier::spinoff_prover]
pub fn decode_index(bytes: &Vec<u8>) -> (r: Result<Indexer, ContextMeshError>)
    ensures
        r matches Ok(ix) ==> ix.wf() && bytes@ == index_le(ix),
        forall|ix0: Indexer|
            (#[trigger] index_le(ix0) == bytes@ && ix0.wf()) ==> (r matches Ok(ix) && tables_like(
                ix,
                ix0,
            )),
{
    let blen = bytes.len();
    let malformed = ContextMeshError::DeserializationError(
        crate::strutil::str_to_string("snapshot bytes are malformed"),
    );
    let (fp, pa) = match read_fp_table(bytes, 0) {
        Some(x) => x,
        None => {
            proof {
                assert forall|ix0: Indexer| !(#[trigger] index_le(ix0) == bytes@ && ix0.wf()) by {
                    if index_le(ix0) == bytes@ && ix0.wf() {
                        lemma_index_hyp_parts(bytes@, ix0);
                    }
                }
            }
            return Err(malformed);
        },
    };
    let (st, pb) = match read_sym_table(bytes, pa) {
        Some(x) => x,
        None => {
            proof {
                assert forall|ix0: Indexer| !(#[trigger] index_le(ix0) == bytes@ && ix0.wf()) by {
                    if index_le(ix0) == bytes@ && ix0.wf() {
                        lemma_index_hyp_parts(bytes@, ix0);
                    }
                }
            }
            return Err(malformed);
        },
    };
    let (un, q) = match read_unres_table(bytes, pb) {
        Some(x) => x,
        None => {
            proof {
                assert forall|ix0: Indexer| !(#[trigger] index_le(ix0) == bytes@ && ix0.wf()) by {
                    if index_le(ix0) == bytes@ && ix0.wf() {
                        lemma_index_hyp_parts(bytes@, ix0);
                    }
                }
            }
            return Err(malformed);
        },
    };
    proof {
        assert forall|ix0: Indexer|
            (#[trigger] index_le(ix0) == bytes@ && ix0.wf()) implies (fp_views_eq(
            fp@,
            ix0.file_hashes.table(),
        ) && st_views_eq(st@, ix0.symbol_store.table()) && un_views_eq(
            un@,
            ix0.dependency_resolver.table(),
        ) && q == bytes@.len()) by {
            lemma_index_hyp_parts(bytes@, ix0);
        }
    }
    if q != blen {
        return Err(malformed);
    }
    // Validate every invariant the engine relies on.
    if !check_unique_keys(&fp) {
        proof {
            assert forall|ix0: Indexer| !(#[trigger] index_le(ix0) == bytes@ && ix0.wf()) by {
                if index_le(ix0) == bytes@ && ix0.wf() {
                    let t1 = ix0.file_hashes.table();
                    assert forall|a: int, b: int| 0 <= a < b < fp@.len() implies fp@[a].0@
                        != fp@[b].0@ by {
                        assert(t1[a].0@ != t1[b].0@);
                    }
                }
            }
        }
        return Err(malformed);
    }
    if !check_unique_keys(&st) {
        proof {
            assert forall|ix0: Indexer| !(#[trigger] index_le(ix0) == bytes@ && ix0.wf()) by {
                if index_le(ix0) == bytes@ && ix0.wf() {
                    let t1 = ix0.symbol_store.table();
                    assert forall|a: int, b: int| 0 <= a < b < st@.len() implies st@[a].0@
                        != st@[b].0@ by {
                        assert(t1[a].0@ != t1[b].0@);
                    }
                }
            }
        }
        return Err(malformed);
    }
    if !check_unique_keys(&un) {
        proof {
            assert forall|ix0: Indexer| !(#[trigger] index_le(ix0) == bytes@ && ix0.wf()) by {
                if index_le(ix0) == bytes@ && ix0.wf() {
                    let t1 = ix0.dependency_resolver.table();
                    assert forall|a: int, b: int| 0 <= a < b < un@.len() implies un@[a].0@
                        != un@[b].0@ by {
                        assert(t1[a].0@ != t1[b].0@);
                    }
                }
            }
        }
        return Err(malformed);
    }
    if !check_symbol_entries(&st) {
        proof {
            assert forall|ix0: Indexer| !(#[trigger] index_le(ix0) == bytes@ && ix0.wf()) by {
                if index_le(ix0) == bytes@ && ix0.wf() {
                    let t1 = ix0.symbol_store.table();
                    assert forall|a: int|
                        0 <= a < st@.len() implies ((#[trigger] st@[a]).0@ == st@[a].1.identity()
                        && st@[a].1.edges_wf()) by {
                        assert(t1[a].0@ == t1[a].1.identity() && t1[a].1.edges_wf());
                        assert(sym_views_eq(st@[a].1, t1[a].1));
                        assert(st@[a].1.identity() == t1[a].1.identity());
                        assert(crate::assoc::distinct_strs(st@[a].1.dependencies@)) by {
                            assert forall|x: int, y: int|
                                0 <= x < y < st@[a].1.dependencies@.len() implies (
                            st@[a].1.dependencies@[x])@ != (st@[a].1.dependencies@[y])@ by {
                                assert((t1[a].1.dependencies@[x])@ != (t1[a].1.dependencies@[y])@);
                            }
                        }
                        assert(crate::assoc::distinct_strs(st@[a].1.used_by@)) by {
                            assert forall|x: int, y: int|
                                0 <= x < y < st@[a].1.used_by@.len() implies (
                            st@[a].1.used_by@[x])@ != (st@[a].1.used_by@[y])@ by {
                                assert((t1[a].1.used_by@[x])@ != (t1[a].1.used_by@[y])@);
                            }
                        }
                    }
                }
            }
        }
        return Err(malformed);
    }
    if !check_graph(&st) {
        proof {
            assert forall|ix0: Indexer| !(#[trigger] index_le(ix0) == bytes@ && ix0.wf()) by {
                if index_le(ix0) == bytes@ && ix0.wf() {
                    lemma_graph_wf_views(ix0.symbol_store.table(), st@);
                }
            }
        }
        return Err(malformed);
    }
    if !check_callers_stored(&un, &st) {
        proof {
            assert forall|ix0: Indexer| !(#[trigger] index_le(ix0) == bytes@ && ix0.wf()) by {
                if index_le(ix0) == bytes@ && ix0.wf() {
                    let t1 = ix0.dependency_resolver.table();
                    let s1 = ix0.symbol_store.table();
                    assert forall|a: int| 0 <= a < un@.len() implies has_key(
                        st@,
                        (#[trigger] un@[a]).0@,
                    ) by {
                        assert(has_key(s1, t1[a].0@));
                        let x = crate::assoc::index_of_key(s1, t1[a].0@);
                        assert(st@[x].0@ == un@[a].0@);
                    }
                }
            }
        }
        return Err(malformed);
    }
    let ix = Indexer {
        file_hashes: FileHashManager { file_hashes: fp },
        symbol_store: SymbolStore { symbols: st },
        dependency_resolver: DependencyResolver { unresolved_deps: un },
    };
    proof {
        lemma_subrange_concat(bytes@, 0, pa as int, bytes@.len() as int);
        lemma_subrange_concat(bytes@, pa as int, pb as int, bytes@.len() as int);
        assert(bytes@.subrange(0, bytes@.len() as int) =~= bytes@);
        assert(bytes@ == index_le(ix));
    }
    Ok(ix)
}

/// Two 8-byte ranges with the same word value are the same bytes./// Two 8-byte ranges with the same word value are the same bytes.
proof fn lemma_le8_inverse(b: Seq<u8>, v: u64)
    requires
        b.len() == 8,
        le_val8(b) == v as int,
    ensures
        b =~= u64_le(v),
{
    let x = v as int;
    let r1 = b[1] + 256 * (b[2] + 256 * (b[3] + 256 * (b[4] + 256 * (b[5] + 256 * (b[6] + 256
        * b[7])))));
    let r2 = b[2] + 256 * (b[3] + 256 * (b[4] + 256 * (b[5] + 256 * (b[6] + 256 * b[7]))));
    let r3 = b[3] + 256 * (b[4] + 256 * (b[5] + 256 * (b[6] + 256 * b[7])));
    let r4 = b[4] + 256 * (b[5] + 256 * (b[6] + 256 * b[7]));
    let r5 = b[5] + 256 * (b[6] + 256 * b[7]);
    let r6 = b[6] + 256 * b[7];
    let r7 = b[7] as int;
    vstd::arithmetic::div_mod::lemma_fundamental_div_mod_converse(x, 256, r1, b[0] as int);
    vstd::arithmetic::div_mod::lemma_fundamental_div_mod_converse(r1, 256, r2, b[1] as int);
    vstd::arithmetic::div_mod::lemma_fundamental_div_mod_converse(r2, 256, r3, b[2] as int);
    vstd::arithmetic::div_mod::lemma_fundamental_div_mod_converse(r3, 256, r4, b[3] as int);
    vstd::arithmetic::div_mod::lemma_fundamental_div_mod_converse(r4, 256, r5, b[4] as int);
    vstd::arithmetic::div_mod::lemma_fundamental_div_mod_converse(r5, 256, r6, b[5] as int);
    vstd::arithmetic::div_mod::lemma_fundamental_div_mod_converse(r6, 256, r7, b[6] as int);
    vstd::arithmetic::div_mod::lemma_div_denominator(x, 256, 256);
    vstd::arithmetic::div_mod::lemma_div_denominator(x, 0x10000, 256);
    vstd::arithmetic::div_mod::lemma_div_denominator(x, 0x1000000, 256);
    vstd::arithmetic::div_mod::lemma_div_denominator(x, 0x100000000, 256);
    vstd::arithmetic::div_mod::lemma_div_denominator(x, 0x10000000000, 256);
    vstd::arithmetic::div_mod::lemma_div_denominator(x, 0x1000000000000, 256);
    assert(x / 256 == r1 && x % 256 == b[0]);
    assert(x / 0x10000 == r2 && r1 % 256 == b[1]);
    assert(x / 0x1000000 == r3 && r2 % 256 == b[2]);
    assert(x / 0x100000000 == r4 && r3 % 256 == b[3]);
    assert(x / 0x10000000000 == r5 && r4 % 256 == b[4]);
    assert(x / 0x1000000000000 == r6 && r5 % 256 == b[5]);
    assert(x / 0x100000000000000 == r7 && r6 % 256 == b[6]);
    assert(r7 % 256 == r7) by {
        vstd::arithmetic::div_mod::lemma_small_mod(r7 as nat, 256);
    }
}

/// Two 4-byte ranges with the same word value are the same bytes.
proof fn lemma_le4_inverse(b: Seq<u8>, v: u32)
    requires
        b.len() == 4,
        le_val4(b) == v as int,
    ensures
        b =~= u32_le(v),
{
    let x = v as int;
    assert(b[0] == x % 256 && b[1] == x / 256 % 256 && b[2] == x / 0x10000 % 256 && b[3] == x
        / 0x1000000 % 256) by {
        assert(0 <= b[0] < 256 && 0 <= b[1] < 256 && 0 <= b[2] < 256 && 0 <= b[3] < 256);
        assert(x == b[0] + 256 * (b[1] + 256 * (b[2] + 256 * b[3])));
    }
}

} // verus!
