use vstd::prelude::*;
use vstd::std_specs::bits::{axiom_u64_leading_zeros, u64_leading_zeros};

use crate::Key;

verus! {

/// `r` is the largest element of `s` that is at most `k`, or absent when there is none.
pub open spec fn floor_of(s: Set<u64>, k: u64, r: Option<u64>) -> bool {
    match r {
        Some(p) => s.contains(p) && p <= k && forall|x: u64| s.contains(x) && x <= k ==> x <= p,
        None => forall|x: u64| s.contains(x) ==> x > k,
    }
}

/// `r` is the smallest element of `s` that is at least `k`, or absent when there is none.
pub open spec fn ceiling_of(s: Set<u64>, k: u64, r: Option<u64>) -> bool {
    match r {
        Some(p) => s.contains(p) && p >= k && forall|x: u64| s.contains(x) && x >= k ==> x >= p,
        None => forall|x: u64| s.contains(x) ==> x < k,
    }
}

/// The largest element of `s` that is at most `k`.
pub open spec fn floor_key(s: Set<u64>, k: u64) -> Option<u64> {
    if exists|x: u64| s.contains(x) && x <= k {
        Some(choose|p: u64| floor_of(s, k, Some(p)))
    } else {
        None
    }
}

/// The smallest element of `s` that is at least `k`.
pub open spec fn ceiling_key(s: Set<u64>, k: u64) -> Option<u64> {
    if exists|x: u64| s.contains(x) && x >= k {
        Some(choose|p: u64| ceiling_of(s, k, Some(p)))
    } else {
        None
    }
}

/// An answer that meets `floor_of` is `floor_key`.
pub proof fn lemma_floor_key(s: Set<u64>, k: u64, r: Option<u64>)
    requires
        floor_of(s, k, r),
    ensures
        r == floor_key(s, k),
{
    if let Some(p) = r {
        assert(s.contains(p) && p <= k);
        let q = choose|q: u64| floor_of(s, k, Some(q));
        assert(p <= q && q <= p);
    }
}

/// An answer that meets `ceiling_of` is `ceiling_key`.
pub proof fn lemma_ceiling_key(s: Set<u64>, k: u64, r: Option<u64>)
    requires
        ceiling_of(s, k, r),
    ensures
        r == ceiling_key(s, k),
{
    if let Some(p) = r {
        assert(s.contains(p) && p >= k);
        let q = choose|q: u64| ceiling_of(s, k, Some(q));
        assert(p <= q && q <= p);
    }
}

/// A floor found in part of a set is the floor in the whole set, when each element of the
/// whole up to `k` is in the part or below an element `lo` of the part.
pub proof fn lemma_floor_transfer(
    part: Set<u64>,
    whole: Set<u64>,
    k: u64,
    r: Option<u64>,
    lo: u64,
)
    requires
        floor_of(part, k, r),
        forall|x: u64| #[trigger] part.contains(x) ==> whole.contains(x),
        forall|x: u64|
            #[trigger] whole.contains(x) && x <= k ==> part.contains(x) || (part.contains(lo)
                && lo <= k && x <= lo),
    ensures
        floor_of(whole, k, r),
{
}

/// A ceiling found in part of a set is the ceiling in the whole set, when each element of the
/// whole from `k` on is in the part or above an element `hi` of the part.
pub proof fn lemma_ceiling_transfer(
    part: Set<u64>,
    whole: Set<u64>,
    k: u64,
    r: Option<u64>,
    hi: u64,
)
    requires
        ceiling_of(part, k, r),
        forall|x: u64| #[trigger] part.contains(x) ==> whole.contains(x),
        forall|x: u64|
            #[trigger] whole.contains(x) && x >= k ==> part.contains(x) || (part.contains(hi)
                && hi >= k && x >= hi),
    ensures
        ceiling_of(whole, k, r),
{
}

/// Position of sample `i` for stride `ts`: every `ts`-th position from the first.
pub open spec fn sample_pos(i: int, ts: int) -> int {
    i * ts
}

/// Keys that are strictly ascending.
pub open spec fn strictly_sorted(s: Seq<u64>) -> bool {
    forall|i: int, j: int| 0 <= i < j < s.len() ==> s[i] < s[j]
}

/// Number of leading bits on which two keys agree.
pub open spec fn shared_prefix(k1: u64, k2: u64) -> int {
    u64_leading_zeros(k1 ^ k2)
}

proof fn lemma_xor_shift(a: u64, b: u64, s: u64)
    requires
        s < 64,
    ensures
        ((a ^ b) >> s == 0) <==> (a >> s == b >> s),
        ((a ^ b) >> s) & 1u64 != 0 ==> a >> s != b >> s,
        (a ^ b == 0) <==> (a == b),
{
    assert(((a ^ b) >> s == 0) <==> (a >> s == b >> s)) by (bit_vector)
        requires
            s < 64,
    ;
    assert(((a ^ b) >> s) & 1u64 != 0 ==> a >> s != b >> s) by (bit_vector)
        requires
            s < 64,
    ;
    assert((a ^ b == 0) <==> (a == b)) by (bit_vector);
}

/// Number of leading bits, from the most significant one, on which the two keys agree.
pub fn longest_common_prefix_length(key1: Key, key2: Key) -> (r: u32)
    ensures
        r == shared_prefix(key1, key2),
        r <= 64,
        r == 64 <==> key1 == key2,
        0 < r < 64 ==> key1 >> ((64 - r) as u64) == key2 >> ((64 - r) as u64),
        r < 64 ==> key1 >> ((63 - r) as u64) != key2 >> ((63 - r) as u64),
{
    let x = key1 ^ key2;
    let r = x.leading_zeros();
    proof {
        broadcast use axiom_u64_leading_zeros;

        let lz = u64_leading_zeros(x);
        lemma_xor_shift(key1, key2, 0);
        if 0 < lz < 64 {
            lemma_xor_shift(key1, key2, (64 - lz) as u64);
        }
        if lz < 64 {
            lemma_xor_shift(key1, key2, (63 - lz) as u64);
        }
    }
    r
}

/// Relies on `slice::sort_unstable`: the keys come out ascending, as a permutation of the input.
#[verifier::external_body]
pub(crate) fn sort_keys(v: &mut Vec<u64>)
    ensures
        final(v)@.to_multiset() == old(v)@.to_multiset(),
        forall|i: int, j: int| 0 <= i < j < final(v)@.len() ==> final(v)@[i] <= final(v)@[j],
{
    v.sort_unstable();
}

/// The distinct keys of `keys`, in ascending order.
pub fn sorted_unique_keys(keys: &[u64]) -> (r: Vec<u64>)
    ensures
        strictly_sorted(r@),
        r@.len() <= keys@.len(),
        forall|x: u64| r@.contains(x) <==> keys@.contains(x),
{
    let mut v: Vec<u64> = Vec::new();
    let mut i: usize = 0;
    while i < keys.len()
        invariant
            i <= keys@.len(),
            v@ == keys@.take(i as int),
        decreases keys@.len() - i,
    {
        v.push(keys[i]);
        i = i + 1;
        assert(v@ =~= keys@.take(i as int));
    }
    assert(v@ =~= keys@);
    let ghost unsorted = v@;
    sort_keys(&mut v);
    proof {
        broadcast use vstd::seq_lib::to_multiset_contains;

        assert forall|x: u64| v@.contains(x) <==> keys@.contains(x) by {
            assert(v@.to_multiset().count(x) == unsorted.to_multiset().count(x));
        }
        assert(v@.len() == keys@.len()) by {
            v@.to_multiset_ensures();
            unsorted.to_multiset_ensures();
        }
    }
    let mut r: Vec<u64> = Vec::new();
    let mut j: usize = 0;
    while j < v.len()
        invariant
            j <= v@.len(),
            forall|a: int, b: int| 0 <= a < b < v@.len() ==> v@[a] <= v@[b],
            strictly_sorted(r@),
            r@.len() <= j,
            forall|x: u64| r@.contains(x) <==> v@.take(j as int).contains(x),
            r@.len() > 0 ==> j > 0 && r@.last() == v@[j - 1],
        decreases v@.len() - j,
    {
        let x = v[j];
        let ghost old_r = r@;
        let fresh = r.len() == 0 || r[r.len() - 1] != x;
        proof {
            assert(v@.take(j + 1) =~= v@.take(j as int).push(x));
            if r@.len() > 0 {
                assert(r@.last() <= x);
            }
        }
        if fresh {
            r.push(x);
        }
        proof {
            broadcast use vstd::seq_lib::lemma_seq_contains_after_push;

            if !fresh {
                assert(old_r[old_r.len() - 1] == x);
                assert(old_r.contains(x));
            }
        }
        j = j + 1;
    }
    assert(v@.take(v@.len() as int) =~= v@);
    r
}

} // verus!
