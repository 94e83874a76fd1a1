//! Small verified helpers on byte vectors: equality, copying, subranges,
//! and first-occurrence scans.

use vstd::prelude::*;

verus! {

/// Compare two byte vectors for equality of contents.
pub fn bytes_eq(a: &Vec<u8>, b: &Vec<u8>) -> (r: bool)
    ensures
        r == (a@ == b@),
{
    if a.len() != b.len() {
        assert(a@ != b@);
        return false;
    }
    let mut i: usize = 0;
    while i < a.len()
        invariant
            0 <= i <= a.len(),
            a.len() == b.len(),
            forall|k: int| 0 <= k < i ==> a@[k] == b@[k],
        decreases a.len() - i,
    {
        if a[i] != b[i] {
            assert(a@ != b@);
            return false;
        }
        i += 1;
    }
    proof {
        assert(a@ =~= b@);
    }
    true
}

/// Copy a byte vector.
pub fn copy_bytes(src: &Vec<u8>) -> (r: Vec<u8>)
    ensures
        r@ == src@,
{
    subrange_vec(src, 0, src.len())
}

/// Copy the bytes of `v` from index `a` (inclusive) to `b` (exclusive).
pub fn subrange_vec(v: &Vec<u8>, a: usize, b: usize) -> (r: Vec<u8>)
    requires
        a <= b <= v@.len(),
    ensures
        r@ == v@.subrange(a as int, b as int),
{
    let mut r: Vec<u8> = Vec::new();
    let mut i: usize = a;
    while i < b
        invariant
            a <= i <= b <= v@.len(),
            r@ == v@.subrange(a as int, i as int),
        decreases b - i,
    {
        r.push(v[i]);
        proof {
            assert(r@ =~= v@.subrange(a as int, i as int + 1));
        }
        i += 1;
    }
    r
}

/// The index of the first occurrence of `b` in `s` at or after index `i`.
pub open spec fn first_index_from(s: Seq<u8>, i: int, b: u8) -> Option<int>
    decreases s.len() - i,
{
    if i >= s.len() {
        None
    } else if s[i] == b {
        Some(i)
    } else {
        first_index_from(s, i + 1, b)
    }
}

/// What `first_index_from` returns: the first occurrence, if any.
pub proof fn lemma_first_index_from(s: Seq<u8>, i: int, b: u8)
    requires
        0 <= i,
    ensures
        match first_index_from(s, i, b) {
            Some(t) => i <= t < s.len() && s[t] == b && forall|k: int| i <= k < t ==> s[k] != b,
            None => forall|k: int| i <= k < s.len() ==> s[k] != b,
        },
    decreases s.len() - i,
{
    if i < s.len() && s[i] != b {
        lemma_first_index_from(s, i + 1, b);
    }
}

/// Conversely: a byte known to be the first occurrence is what the scan finds.
pub proof fn lemma_first_index_exact(s: Seq<u8>, i: int, t: int, b: u8)
    requires
        0 <= i <= t < s.len(),
        s[t] == b,
        forall|k: int| i <= k < t ==> s[k] != b,
    ensures
        first_index_from(s, i, b) == Some(t),
    decreases t - i,
{
    if i < t {
        lemma_first_index_exact(s, i + 1, t, b);
    }
}

/// Two scans over equal byte suffixes find the target at the same offset.
pub proof fn lemma_first_index_suffix(s1: Seq<u8>, i1: int, s2: Seq<u8>, i2: int, b: u8)
    requires
        0 <= i1 <= s1.len(),
        0 <= i2 <= s2.len(),
        s1.skip(i1) == s2.skip(i2),
    ensures
        match (first_index_from(s1, i1, b), first_index_from(s2, i2, b)) {
            (Some(t1), Some(t2)) => t1 - i1 == t2 - i2,
            (None, None) => true,
            _ => false,
        },
{
    assert(s1.skip(i1).len() == s1.len() - i1);
    assert(s2.skip(i2).len() == s2.len() - i2);
    assert(s1.len() - i1 == s2.len() - i2);
    assert forall|j: int| i1 <= j < s1.len() implies #[trigger] s1[j] == s2[j - i1 + i2] by {
        let k = j - i1;
        assert(s1.skip(i1)[k] == s1[i1 + k]);
        assert(s2.skip(i2)[k] == s2[i2 + k]);
    }
    lemma_first_index_from(s1, i1, b);
    lemma_first_index_from(s2, i2, b);
    match first_index_from(s1, i1, b) {
        Some(t1) => {
            let t2 = i2 + (t1 - i1);
            assert(s2[t2] == s1[t1]);
            assert(forall|k: int| i2 <= k < t2 ==> s2[k] == s1[i1 + (k - i2)]);
            lemma_first_index_exact(s2, i2, t2, b);
        },
        None => {
            if first_index_from(s2, i2, b) is Some {
                let t2 = first_index_from(s2, i2, b).unwrap();
                assert(s1[i1 + (t2 - i2)] == b);
            }
        },
    }
}

/// Scan `v` for the first occurrence of `b` at or after index `from`.
pub fn find_byte_from(v: &Vec<u8>, from: usize, b: u8) -> (r: Option<usize>)
    ensures
        match r {
            Some(t) => first_index_from(v@, from as int, b) == Some(t as int),
            None => first_index_from(v@, from as int, b) is None,
        },
{
    let mut i: usize = from;
    while i < v.len()
        invariant
            from <= i,
            first_index_from(v@, from as int, b) == first_index_from(v@, i as int, b),
        decreases v@.len() - i,
    {
        if v[i] == b {
            return Some(i);
        }
        i += 1;
    }
    None
}

} // verus!

