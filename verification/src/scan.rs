//! Byte-sequence scanning primitives: prefix tests, substring search, and a
//! spec-level notion of the first occurrence of a pattern in a sequence.

use vstd::prelude::*;
use vstd::slice::slice_index_get;
use vstd::slice::slice_to_vec;

verus! {

/// The pattern `p` occurs in `s` at position `i`.
pub open spec fn match_at(s: Seq<u8>, p: Seq<u8>, i: int) -> bool {
    0 <= i && i + p.len() <= s.len() && s.subrange(i, i + p.len() as int) == p
}

/// The pattern `p` occurs somewhere in `s`.
pub open spec fn has_sub(s: Seq<u8>, p: Seq<u8>) -> bool {
    exists|i: int| match_at(s, p, i)
}

/// Position of the first occurrence of `p` in `s`, if there is one.
pub open spec fn first_match(s: Seq<u8>, p: Seq<u8>) -> Option<int>
    decreases s.len(),
{
    if p.is_prefix_of(s) {
        Some(0int)
    } else if s.len() == 0 {
        None
    } else {
        match first_match(s.drop_first(), p) {
            None => None,
            Some(j) => Some(j + 1),
        }
    }
}

/// `first_match` returns the position of an occurrence that no earlier
/// position shares, and returns nothing exactly when no position matches.
pub proof fn lemma_first_match(s: Seq<u8>, p: Seq<u8>)
    ensures
        match first_match(s, p) {
            Some(j) => match_at(s, p, j) && (forall|k: int| 0 <= k < j ==> !match_at(s, p, k)),
            None => forall|k: int| !match_at(s, p, k),
        },
    decreases s.len(),
{
    if p.is_prefix_of(s) {
        assert(s.subrange(0, p.len() as int) =~= p);
        assert(match_at(s, p, 0));
    } else if s.len() == 0 {
        assert forall|k: int| !match_at(s, p, k) by {
            if match_at(s, p, k) {
                assert(p.len() == 0 && k == 0);
                assert(p.is_prefix_of(s));
            }
        }
    } else {
        lemma_first_match(s.drop_first(), p);
        assert forall|k: int| 1 <= k implies match_at(s, p, k) == match_at(
            s.drop_first(),
            p,
            k - 1,
        ) by {
            if match_at(s, p, k) {
                assert(s.drop_first().subrange(k - 1, k - 1 + p.len() as int) =~= s.subrange(
                    k,
                    k + p.len() as int,
                ));
            }
            if match_at(s.drop_first(), p, k - 1) {
                assert(s.subrange(k, k + p.len() as int) =~= s.drop_first().subrange(
                    k - 1,
                    k - 1 + p.len() as int,
                ));
            }
        }
        assert(!match_at(s, p, 0)) by {
            if match_at(s, p, 0) {
                assert(p.is_prefix_of(s));
            }
        }
        match first_match(s.drop_first(), p) {
            None => {
                assert forall|k: int| !match_at(s, p, k) by {
                    if 1 <= k {
                        assert(!match_at(s.drop_first(), p, k - 1));
                    }
                }
            },
            Some(j) => {
                assert(match_at(s.drop_first(), p, j));
                assert(match_at(s, p, j + 1));
                assert forall|k: int| 0 <= k < j + 1 implies !match_at(s, p, k) by {
                    if 1 <= k {
                        assert(!match_at(s.drop_first(), p, k - 1));
                    }
                }
            },
        }
    }
}

/// True exactly when `p` is a prefix of `s` taken from position `i` on.
pub fn starts_with_at(s: &[u8], i: usize, p: &[u8]) -> (r: bool)
    requires
        i <= s@.len(),
    ensures
        r == p@.is_prefix_of(s@.skip(i as int)),
{
    let n: usize = s.len();
    if n - i < p.len() {
        return false;
    }
    let mut k: usize = 0;
    while k < p.len()
        invariant
            i + p@.len() <= n == s@.len(),
            k <= p@.len(),
            forall|t: int| 0 <= t < k ==> s@[i + t] == p@[t],
        decreases p@.len() - k,
    {
        if *slice_index_get(s, i + k) != *slice_index_get(p, k) {
            proof {
                assert(s@.skip(i as int).subrange(0, p@.len() as int)[k as int] == s@[i + k]);
            }
            return false;
        }
        k = k + 1;
    }
    proof {
        assert(p@ =~= s@.skip(i as int).subrange(0, p@.len() as int));
    }
    true
}

/// True exactly when `p` is a prefix of `s`.
pub fn starts_with(s: &[u8], p: &[u8]) -> (r: bool)
    ensures
        r == p@.is_prefix_of(s@),
{
    proof {
        assert(s@.skip(0) =~= s@);
    }
    starts_with_at(s, 0, p)
}

/// Finds the first occurrence of `p` in `s` at or after position `i`.
pub fn find_from(s: &[u8], i: usize, p: &[u8]) -> (r: Option<usize>)
    requires
        i <= s@.len(),
        p@.len() >= 1,
    ensures
        match r {
            Some(j) => i <= j && j + p@.len() <= s@.len() && first_match(s@.skip(i as int), p@)
                == Some(j - i),
            None => first_match(s@.skip(i as int), p@) is None,
        },
{
    let ghost suffix = s@.skip(i as int);
    let mut j: usize = i;
    loop
        invariant
            i <= j <= s@.len(),
            suffix == s@.skip(i as int),
            forall|k: int| 0 <= k < j - i ==> !match_at(suffix, p@, k),
        decreases s@.len() - j,
    {
        if s.len() - j < p.len() {
            proof {
                lemma_first_match(suffix, p@);
                assert forall|k: int| !match_at(suffix, p@, k) by {
                    if k >= j - i {
                        assert(k + p@.len() > suffix.len());
                    }
                }
            }
            return None;
        }
        if starts_with_at(s, j, p) {
            proof {
                assert(suffix.subrange(j - i, j - i + p@.len() as int) =~= s@.skip(
                    j as int,
                ).subrange(0, p@.len() as int));
                assert(match_at(suffix, p@, j - i));
                lemma_first_match(suffix, p@);
                match first_match(suffix, p@) {
                    None => {
                        assert(!match_at(suffix, p@, j - i));
                    },
                    Some(m) => {
                        if m < j - i {
                            assert(!match_at(suffix, p@, m));
                        }
                        if m > j - i {
                            assert(!match_at(suffix, p@, j - i));
                        }
                    },
                }
            }
            return Some(j);
        }
        j = j + 1;
    }
}

/// True exactly when `p` occurs somewhere in `s`; every string contains the
/// empty pattern.
pub fn contains_sub(s: &[u8], p: &[u8]) -> (r: bool)
    ensures
        r == has_sub(s@, p@),
{
    if p.len() == 0 {
        proof {
            assert(s@.subrange(0, 0) =~= p@);
            assert(match_at(s@, p@, 0));
        }
        return true;
    }
    proof {
        assert(s@.skip(0) =~= s@);
    }
    match find_from(s, 0, p) {
        Some(_) => {
            proof {
                lemma_first_match(s@, p@);
            }
            true
        },
        None => {
            proof {
                lemma_first_match(s@, p@);
            }
            false
        },
    }
}

/// True exactly when `a` and `b` hold the same bytes.
pub fn bytes_eq(a: &[u8], b: &[u8]) -> (r: bool)
    ensures
        r == (a@ == b@),
{
    if a.len() != b.len() {
        return false;
    }
    let mut k: usize = 0;
    while k < a.len()
        invariant
            a@.len() == b@.len(),
            k <= a@.len(),
            forall|t: int| 0 <= t < k ==> a@[t] == b@[t],
        decreases a@.len() - k,
    {
        if *slice_index_get(a, k) != *slice_index_get(b, k) {
            return false;
        }
        k = k + 1;
    }
    proof {
        assert(a@ =~= b@);
    }
    true
}

/// The bytes of `a` followed by the bytes of `b`.
pub fn concat_bytes(a: &[u8], b: &[u8]) -> (r: Vec<u8>)
    ensures
        r@ == a@ + b@,
{
    let mut out = slice_to_vec(a);
    let mut k: usize = 0;
    while k < b.len()
        invariant
            k <= b@.len(),
            out@ == a@ + b@.take(k as int),
        decreases b@.len() - k,
    {
        out.push(*slice_index_get(b, k));
        proof {
            assert(a@ + b@.take(k + 1) =~= (a@ + b@.take(k as int)).push(b@[k as int]));
        }
        k = k + 1;
    }
    proof {
        assert(b@.take(b@.len() as int) =~= b@);
        assert(out@ =~= a@ + b@);
    }
    out
}

} // verus!
