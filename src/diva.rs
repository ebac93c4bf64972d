use std::sync::Arc;
use vstd::prelude::*;

use crate::infix_store::{
    low_mask,
    holds_infixes, matches_some, quotient_of, quotients_sorted, remainder_of, InfixStore,
    MAX_SLOTS,
    TARGET_SIZE,
};
use crate::utils::{
    ceiling_key, ceiling_of, floor_key, floor_of, lemma_ceiling_key, lemma_floor_key, sort_keys, sample_pos, longest_common_prefix_length, shared_prefix, sorted_unique_keys,
    strictly_sorted,
};
use crate::y_fast_trie::YFastTrie;

verus! {

/// Quotient bits taken after the shared prefix when enough bits remain.
pub const BASE_IMPLICIT_SIZE: u32 = 10;

/// Width of the keys, and levels of the boundary trie.
pub const NO_LEVELS: usize = 64;

/// Bit `pos` of `k`, counted from the most significant bit as position 0.
pub open spec fn msb_bit(k: u64, pos: int) -> u64 {
    (k >> ((63 - pos) as u64)) & 1u64
}

/// Number of positions from `pos` on where `k1` has 0 and `k2` has 1, up to the first other.
pub open spec fn redundant_run(k1: u64, k2: u64, pos: int) -> int
    decreases 64 - pos,
{
    if pos >= 64 || pos < 0 {
        0
    } else if msb_bit(k1, pos) == 0 && msb_bit(k2, pos) == 1 {
        1 + redundant_run(k1, k2, pos + 1)
    } else {
        0
    }
}

/// Quotient width for `bits_used` bits taken by the shared prefix, the first differing bit
/// and the redundant bits.
pub open spec fn quotient_width(bits_used: int) -> int {
    if bits_used >= 64 {
        0
    } else if 64 - bits_used < BASE_IMPLICIT_SIZE {
        64 - bits_used
    } else {
        BASE_IMPLICIT_SIZE as int
    }
}

/// The infix of `key`: `msb` above `quotient_bits + remainder_bits` bits of `key` taken from
/// bit `shared_prefix_len + 1 + redundant_bits` on (counted from the most significant bit),
/// fewer where the key ends first.
pub open spec fn partial_key(
    key: u64,
    shared_prefix_len: int,
    redundant_bits: int,
    quotient_bits: int,
    remainder_bits: int,
    msb: u64,
) -> u64 {
    let start = shared_prefix_len + 1 + redundant_bits;
    let bits = if quotient_bits + remainder_bits < 64 - start {
        quotient_bits + remainder_bits
    } else {
        64 - start
    };
    if start >= 64 || bits == 0 {
        msb
    } else {
        (msb << ((quotient_bits + remainder_bits) as u64)) | ((key >> ((64 - start - bits) as u64))
            & (((1u64 << (bits as u64)) - 1) as u64))
    }
}

/// The infix of `key` between boundaries `lower` and `upper`, with remainders of `rs` bits.
pub open spec fn diva_infix(lower: u64, upper: u64, key: u64, rs: u8) -> u64 {
    let shared = shared_prefix(lower, upper);
    let msb = if shared >= 64 {
        0
    } else {
        msb_bit(key, shared)
    };
    partial_key(key, shared, 0, quotient_width(shared + 1), rs as int, msb)
}

/// Bits of a quotient in a store: log2 of `TARGET_SIZE`.
pub const QUOTIENT_BITS: u64 = 10;

/// What a store keeps of an infix: its low `QUOTIENT_BITS + rs` bits, a quotient that fits the
/// occupieds bitmap above `rs` remainder bits. An infix with a full-width quotient also carries
/// its leading bit above those; it is dropped, and two infixes that differ only there share a
/// slot value.
pub open spec fn store_infix(infix: u64, rs: u8) -> u64 {
    infix & low_mask((QUOTIENT_BITS + rs) as u64)
}

/// Values that never decrease.
pub open spec fn ascending(s: Seq<u64>) -> bool {
    forall|i: int, j: int| 0 <= i <= j < s.len() ==> s[i] <= s[j]
}

/// `st` holds, sorted, the stored infixes of the keys strictly between samples `i` and `i + 1`.
pub open spec fn pair_store(st: InfixStore, sorted: Seq<u64>, ts: int, rs: u8, i: int) -> bool {
    &&& holds_infixes(st, st.contents(), rs)
    &&& ascending(st.contents())
    &&& st.contents().to_multiset() == pair_infixes(sorted, ts, rs, i).to_multiset()
}


/// The stored infixes of the keys strictly between samples `i` and `i + 1` of `sorted`.
pub open spec fn pair_infixes(sorted: Seq<u64>, ts: int, rs: u8, i: int) -> Seq<u64> {
    Seq::new(
        (ts - 1) as nat,
        |t: int|
            store_infix(
                diva_infix(
                    sorted[sample_pos(i, ts)],
                    sorted[sample_pos(i + 1, ts)],
                    sorted[sample_pos(i, ts) + 1 + t],
                    rs,
                ),
                rs,
            ),
    )
}

/// `r` holds every `ts`-th element of `s`, from the first.
pub open spec fn is_sample(s: Seq<u64>, ts: int, r: Seq<u64>) -> bool {
    &&& forall|i: int|
        #![trigger r[i]]
        0 <= i < r.len() ==> (sample_pos(i, ts) < s.len()) && (r[i] == s[sample_pos(i, ts)])
    &&& r.len() * ts >= s.len()
}

proof fn lemma_lower_has_zero(a: u64, b: u64, s: u64)
    requires
        s < 64,
        a < b,
        s == 63 || a >> ((s + 1) as u64) == b >> ((s + 1) as u64),
        a >> s != b >> s,
    ensures
        (a >> s) & 1u64 == 0,
{
    assert((s < 64 && a < b && (s == 63 || a >> ((s + 1) as u64) == b >> ((s + 1) as u64)) && a
        >> s != b >> s) ==> (a >> s) & 1u64 == 0) by (bit_vector);
}

/// The Diva range filter: a boundary trie over every `target_size`-th key, with the keys
/// between two boundaries packed as infixes in a store at the lower boundary.
pub struct Diva {
    y_fast_trie: YFastTrie,
    target_size: usize,
    remainder_size: u8,
    sample_count: usize,
    keys: Ghost<Seq<u64>>,
}

impl Diva {
    /// Runs of bits after the first differing bit where `key_1` has 0 and `key_2` has 1.
    pub fn compute_redundant_bits(key_1: u64, key_2: u64, shared_prefix_len: u8) -> (r: u8)
        requires
            shared_prefix_len <= 64,
        ensures
            r == if shared_prefix_len >= 63 {
                0
            } else {
                redundant_run(key_1, key_2, shared_prefix_len + 1)
            },
    {
        if shared_prefix_len >= 63 {
            return 0;
        }
        let mut redundant_bits: u8 = 0;
        let mut bit_pos: u8 = shared_prefix_len + 1;
        while bit_pos < 64
            invariant
                shared_prefix_len < 63,
                shared_prefix_len + 1 <= bit_pos <= 64,
                redundant_bits == bit_pos - shared_prefix_len - 1,
                redundant_run(key_1, key_2, shared_prefix_len + 1) == redundant_bits
                    + redundant_run(key_1, key_2, bit_pos as int),
            decreases 64 - bit_pos,
        {
            let shift = 63 - bit_pos;
            let bit_1 = (key_1 >> shift) & 1;
            let bit_2 = (key_2 >> shift) & 1;
            if bit_1 == 0 && bit_2 == 1 {
                redundant_bits = redundant_bits + 1;
                bit_pos = bit_pos + 1;
            } else {
                return redundant_bits;
            }
        }
        redundant_bits
    }

    /// The extraction layout between two boundaries: shared prefix length, redundant bits
    /// (none unless asked for) and quotient bits.
    pub fn get_shared_ignore_implicit_size(key_1: &u64, key_2: &u64, use_redundant_bits: bool) -> (r: (
        u8,
        u8,
        u8,
    ))
        ensures
            r.0 == shared_prefix(*key_1, *key_2),
            r.1 == if use_redundant_bits && r.0 < 63 {
                redundant_run(*key_1, *key_2, r.0 + 1)
            } else {
                0
            },
            r.2 == quotient_width(r.0 + 1 + r.1),
    {
        let shared = longest_common_prefix_length(*key_1, *key_2) as u8;
        let redundant_bits = if use_redundant_bits {
            Self::compute_redundant_bits(*key_1, *key_2, shared)
        } else {
            0
        };
        proof {
            assert(redundant_bits <= 64) by {
                if use_redundant_bits && shared < 63 {
                    Self::lemma_run_bound(*key_1, *key_2, shared + 1);
                }
            }
        }
        let bits_used = shared + 1 + redundant_bits;
        if bits_used >= 64 {
            return (shared, redundant_bits, 0);
        }
        let remaining_bits = 64 - bits_used;
        if remaining_bits < BASE_IMPLICIT_SIZE as u8 {
            return (shared, redundant_bits, remaining_bits);
        }
        (shared, redundant_bits, BASE_IMPLICIT_SIZE as u8)
    }

    proof fn lemma_run_bound(k1: u64, k2: u64, pos: int)
        requires
            0 <= pos <= 64,
        ensures
            0 <= redundant_run(k1, k2, pos) <= 64 - pos,
        decreases 64 - pos,
    {
        if pos < 64 {
            Self::lemma_run_bound(k1, k2, pos + 1);
        }
    }

    /// The infix of `key` for a layout, with `msb` as its top bit.
    pub fn extract_partial_key(
        key: u64,
        shared_prefix_len: u8,
        redundant_bits: u8,
        quotient_bits: u8,
        remainder_bits: u8,
        msb: u8,
    ) -> (r: u64)
        requires
            shared_prefix_len <= 64,
            redundant_bits <= 64,
            quotient_bits + remainder_bits <= 32,
            msb <= 1,
        ensures
            r == partial_key(
                key,
                shared_prefix_len as int,
                redundant_bits as int,
                quotient_bits as int,
                remainder_bits as int,
                msb as u64,
            ),
    {
        let start_bit = shared_prefix_len + 1 + redundant_bits;
        if start_bit >= 64 {
            return msb as u64;
        }
        let remaining_bits = 64 - start_bit;
        let bits_to_extract = if quotient_bits + remainder_bits < remaining_bits {
            quotient_bits + remainder_bits
        } else {
            remaining_bits
        };
        if bits_to_extract == 0 {
            return msb as u64;
        }
        let shift_amount = 64 - start_bit - bits_to_extract;
        let b = bits_to_extract as u64;
        assert(1u64 << b >= 1) by (bit_vector)
            requires
                b < 64,
        ;
        let extracted = (key >> shift_amount) & ((1u64 << bits_to_extract) - 1);
        ((msb as u64) << (quotient_bits + remainder_bits)) | extracted
    }

    /// Bit `shared_prefix_len` of `key`, counted from the most significant bit as position 0: the
    /// first bit after the prefix that the two boundaries share. 0 when there is no such bit.
    pub fn leading_bit(key: u64, shared_prefix_len: u8) -> (r: u8)
        ensures
            r == if shared_prefix_len >= 64 {
                0
            } else {
                msb_bit(key, shared_prefix_len as int)
            },
            r <= 1,
    {
        if shared_prefix_len >= 64 {
            return 0;
        }
        let bit = (key >> (63 - shared_prefix_len)) & 1;
        assert(bit <= 1) by (bit_vector)
            requires
                bit == (key >> (63 - shared_prefix_len) as u64) & 1,
        ;
        bit as u8
    }

    /// The low `QUOTIENT_BITS + remainder_size` bits of an infix, which a store keeps.
    fn store_bits(infix: u64, remainder_size: u8) -> (r: u64)
        requires
            remainder_size <= 16,
        ensures
            r == store_infix(infix, remainder_size),
            quotient_of(r, remainder_size) < TARGET_SIZE,
    {
        let width = QUOTIENT_BITS + remainder_size as u64;
        let rs = remainder_size as u64;
        assert(1u64 << width >= 1) by (bit_vector)
            requires
                width == 10 + rs,
                rs <= 16,
        ;
        let r = infix & ((1u64 << width) - 1);
        assert(((infix & (((1u64 << width) - 1) as u64)) >> rs) < 1024) by (bit_vector)
            requires
                width == 10 + rs,
                rs <= 16,
        ;
        r
    }

    /// The bit of `key_1` at the first position where the two keys differ; 0 for equal keys.
    pub fn get_msb(key_1: &u64, key_2: &u64) -> (r: u8)
        ensures
            r == if shared_prefix(*key_1, *key_2) >= 64 {
                0
            } else {
                msb_bit(*key_1, shared_prefix(*key_1, *key_2))
            },
            r <= 1,
            *key_1 < *key_2 ==> r == 0,
    {
        let shared = longest_common_prefix_length(*key_1, *key_2);
        if shared >= 64 {
            return 0;
        }
        let bit_pos = 63 - shared;
        let bit = (*key_1 >> bit_pos) & 1;
        proof {
            if *key_1 < *key_2 {
                lemma_lower_has_zero(*key_1, *key_2, bit_pos as u64);
            }
            assert(bit <= 1) by (bit_vector)
                requires
                    bit == (*key_1 >> bit_pos) & 1,
            ;
        }
        bit as u8
    }

    /// The boundary trie, its sorted keys, the sample stride and the remainder width are
    /// consistent.
    pub closed spec fn wf(&self) -> bool {
        let keys = self.keys@;
        let ts = self.target_size as int;
        &&& self.y_fast_trie.wf()
        &&& 1 <= self.target_size
        &&& self.remainder_size <= 16
        &&& strictly_sorted(keys)
        &&& self.sample_count * ts >= keys.len()
        &&& (self.sample_count == 0 || sample_pos(self.sample_count - 1, ts) < keys.len())
        &&& forall|x: u64|
            self.y_fast_trie.key_set().contains(x) <==> exists|i: int|
                0 <= i && sample_pos(i, ts) < keys.len() && keys[sample_pos(i, ts)] == x
        &&& forall|i: int|
            0 <= i && sample_pos(i + 1, ts) < keys.len() && ts >= 2 ==> (#[trigger] self.y_fast_trie.stored(
                keys[sample_pos(i, ts)],
            ) matches Some(st) && pair_store(*st, keys, ts, self.remainder_size, i))
        &&& forall|k: u64|
            #[trigger] self.y_fast_trie.stored(k) is Some ==> self.y_fast_trie.stored(k)->0.wf()
                && self.y_fast_trie.stored(k)->0.remainder_bits() == self.remainder_size && ascending(
                self.y_fast_trie.stored(k)->0.contents(),
            )
    }

    /// The keys, distinct and ascending.
    pub closed spec fn sorted_keys(&self) -> Seq<u64> {
        self.keys@
    }

    pub closed spec fn stride(&self) -> int {
        self.target_size as int
    }

    pub closed spec fn remainder_bits(&self) -> u8 {
        self.remainder_size
    }

    /// Number of sampled keys.
    pub closed spec fn samples(&self) -> int {
        self.sample_count as int
    }

    /// The stride between sampled keys.
    pub fn target_size(&self) -> (r: usize)
        ensures
            r == self.stride(),
    {
        self.target_size
    }

    /// Width of the remainders in the stores.
    pub fn remainder_size(&self) -> (r: u8)
        ensures
            r == self.remainder_bits(),
    {
        self.remainder_size
    }

    /// Number of sampled keys: the boundaries of the trie.
    pub fn sample_count(&self) -> (r: usize)
        ensures
            r == self.samples(),
    {
        self.sample_count
    }

    /// The boundary trie.
    pub fn y_fast_trie(&self) -> (r: &YFastTrie)
        requires
            self.wf(),
        ensures
            r.wf(),
            r.key_set() == self.boundaries(),
    {
        &self.y_fast_trie
    }

    /// The sampled keys: the boundaries.
    pub closed spec fn boundaries(&self) -> Set<u64> {
        self.y_fast_trie.key_set()
    }

    /// The infix store attached to key `k`, if any.
    pub closed spec fn store_of(&self, k: u64) -> Option<Arc<InfixStore>> {
        self.y_fast_trie.stored(k)
    }

    /// An empty filter sampling every `target_size`-th key, with remainders of
    /// `remainder_size` bits.
    pub fn new(target_size: usize, remainder_size: u8) -> (r: Self)
        requires
            1 <= target_size,
            remainder_size <= 16,
        ensures
            r.wf(),
            r.stride() == target_size,
            r.remainder_bits() == remainder_size,
            r.boundaries() == Set::<u64>::empty(),
            r.samples() == 0,
    {
        let r = Diva {
            y_fast_trie: YFastTrie::new(NO_LEVELS),
            target_size,
            remainder_size,
            sample_count: 0,
            keys: Ghost(Seq::empty()),
        };
        proof {
            assert(0 * target_size == 0);
            assert(r.y_fast_trie.key_set() =~= Set::<u64>::empty());
        }
        r
    }

    /// Every `target_size`-th key of `sorted_keys`, from the first.
    fn sample_keys(sorted_keys: &Vec<u64>, target_size: usize) -> (r: Vec<u64>)
        requires
            target_size >= 1,
        ensures
            is_sample(sorted_keys@, target_size as int, r@),
    {
        let n = sorted_keys.len();
        let mut out: Vec<u64> = Vec::new();
        let mut pos: usize = 0;
        proof {
            assert(0 * (target_size as int) == 0) by (nonlinear_arith);
        }
        if n == 0 {
            return out;
        }
        while pos < n
            invariant
                n == sorted_keys@.len(),
                target_size >= 1,
                pos == out@.len() * target_size,
                pos < n || (pos == 0 && n == 0),
                forall|i: int| 0 <= i < out@.len() ==> #[trigger] sample_pos(i, target_size as int) < pos,
                forall|i: int|
                    0 <= i < out@.len() ==> #[trigger] out@[i] == sorted_keys@[sample_pos(i, target_size as int)],
            decreases n - pos,
        {
            let ghost c = out@.len() as int;
            out.push(sorted_keys[pos]);
            proof {
                assert(sample_pos(c, target_size as int) == pos);
                assert((c + 1) * target_size == pos + target_size) by (nonlinear_arith)
                    requires
                        pos == c * target_size,
                ;
            }
            if n - pos <= target_size {
                return out;
            }
            pos = pos + target_size;
        }
        out
    }

    /// A filter over the distinct keys of `keys`: every `target_size`-th of them in ascending
    /// order is a boundary, and the keys strictly between two consecutive boundaries are packed
    /// as infixes, with remainders of `remainder_size` bits, in a store at the lower boundary.
    pub fn new_with_keys(keys: &[u64], target_size: usize, remainder_size: u8) -> (r: Self)
        requires
            1 <= target_size,
            target_size <= MAX_SLOTS + 1 || keys@.len() <= target_size,
            remainder_size <= 16,
        ensures
            r.wf(),
            r.stride() == target_size,
            r.remainder_bits() == remainder_size,
            strictly_sorted(r.sorted_keys()),
            forall|x: u64| r.sorted_keys().contains(x) <==> keys@.contains(x),
            r.samples() * target_size >= r.sorted_keys().len(),
            r.samples() == 0 || sample_pos(r.samples() - 1, target_size as int) < r.sorted_keys().len(),
            forall|x: u64|
                r.boundaries().contains(x) <==> exists|i: int|
                    0 <= i && sample_pos(i, target_size as int) < r.sorted_keys().len()
                        && r.sorted_keys()[sample_pos(i, target_size as int)] == x,
            forall|i: int|
                0 <= i && sample_pos(i + 1, target_size as int) < r.sorted_keys().len()
                    && target_size >= 2 ==> (#[trigger] r.store_of(
                    r.sorted_keys()[sample_pos(i, target_size as int)],
                ) matches Some(st) && pair_store(*st, r.sorted_keys(), target_size as int, remainder_size, i)),
    {
        let sorted_keys = sorted_unique_keys(keys);
        let n = sorted_keys.len();
        let samples = Self::sample_keys(&sorted_keys, target_size);
        let m = samples.len();
        let ghost ts = target_size as int;
        let mut y_fast_trie = YFastTrie::new_with_keys(samples.as_slice(), NO_LEVELS);
        let mut i: usize = 0;
        proof {
            if m >= 2 {
                assert(sample_pos(1, ts) == ts);
                assert(samples@[1] == sorted_keys@[sample_pos(1, ts)]);
                assert(sample_pos(1, ts) < n);
            }
        }
        while m - i > 1
            invariant
                i <= m,
                n == sorted_keys@.len(),
                m == samples@.len(),
                ts == target_size,
                1 <= target_size,
                m >= 2 ==> target_size <= MAX_SLOTS + 1,
                remainder_size <= 16,
                strictly_sorted(sorted_keys@),
                is_sample(sorted_keys@, ts, samples@),
                y_fast_trie.wf(),
                forall|x: u64| y_fast_trie.key_set().contains(x) <==> samples@.contains(x),
                forall|k: u64|
                    #[trigger] y_fast_trie.stored(k) is Some ==> exists|i2: int|
                        0 <= i2 < i && samples@[i2] == k,
                forall|k: u64|
                    #[trigger] y_fast_trie.stored(k) is Some ==> y_fast_trie.stored(k)->0.wf()
                        && y_fast_trie.stored(k)->0.remainder_bits() == remainder_size && ascending(
                        y_fast_trie.stored(k)->0.contents(),
                    ),
                forall|i2: int|
                    0 <= i2 < i && target_size >= 2 ==> (#[trigger] y_fast_trie.stored(samples@[i2])
                        matches Some(st) && pair_store(*st, sorted_keys@, ts, remainder_size, i2)),
            decreases m - i,
        {
            let predecessor = samples[i];
            let successor = samples[i + 1];
            let (shared_prefix_len, redundant_bits, quotient_bits) =
                Self::get_shared_ignore_implicit_size(&predecessor, &successor, false);
            proof {
                assert(sample_pos(i as int, ts) < n);
                assert(sample_pos(i + 1, ts) < n);
                assert(sample_pos(i + 1, ts) == sample_pos(i as int, ts) + ts) by (nonlinear_arith)
                    requires
                        ts >= 1,
                ;
            }
            let start_idx = i * target_size + 1;
            let end_idx = (i + 1) * target_size;
            let mut infixes: Vec<u64> = Vec::new();
            let mut j: usize = start_idx;
            while j < end_idx
                invariant
                    n == sorted_keys@.len(),
                    start_idx == sample_pos(i as int, ts) + 1,
                    end_idx == sample_pos(i + 1, ts),
                    end_idx < n,
                    start_idx <= j <= end_idx,
                    ts == target_size,
                    1 <= target_size <= MAX_SLOTS + 1,
                    strictly_sorted(sorted_keys@),
                    predecessor == sorted_keys@[sample_pos(i as int, ts)],
                    successor == sorted_keys@[sample_pos(i + 1, ts)],
                    shared_prefix_len == shared_prefix(predecessor, successor),
                    redundant_bits == 0,
                    quotient_bits == quotient_width(shared_prefix_len + 1),
                    remainder_size <= 16,
                    infixes@.len() == j - start_idx,
                    forall|t: int|
                        0 <= t < infixes@.len() ==> #[trigger] infixes@[t] == store_infix(
                            diva_infix(predecessor, successor, sorted_keys@[start_idx + t], remainder_size),
                            remainder_size,
                        ),
                    forall|t: int|
                        0 <= t < infixes@.len() ==> quotient_of(#[trigger] infixes@[t], remainder_size)
                            < TARGET_SIZE,
                decreases end_idx - j,
            {
                let key = sorted_keys[j];
                let key_msb = Self::leading_bit(key, shared_prefix_len);
                proof {
                    Self::lemma_run_bound(predecessor, successor, 0);
                }
                let full = Self::extract_partial_key(
                    key,
                    shared_prefix_len,
                    redundant_bits,
                    quotient_bits,
                    remainder_size,
                    key_msb,
                );
                let infix = Self::store_bits(full, remainder_size);
                infixes.push(infix);
                j = j + 1;
            }
            if infixes.len() > 0 {
                proof {
                    assert(infixes@ =~= pair_infixes(sorted_keys@, ts, remainder_size, i as int));
                }
                let ghost unsorted = infixes@;
                sort_keys(&mut infixes);
                proof {
                    broadcast use vstd::seq_lib::to_multiset_contains;

                    assert forall|t: int| 0 <= t < infixes@.len() implies quotient_of(
                        #[trigger] infixes@[t],
                        remainder_size,
                    ) < TARGET_SIZE by {
                        let x = infixes@[t];
                        assert(infixes@.contains(x));
                        assert(infixes@.to_multiset().count(x) > 0);
                        assert(unsorted.to_multiset().count(x) > 0);
                        assert(unsorted.contains(x));
                    }
                    assert(infixes@.len() == unsorted.len()) by {
                        infixes@.to_multiset_ensures();
                        unsorted.to_multiset_ensures();
                    }
                }
                let infix_store = InfixStore::new_with_infixes(infixes.as_slice(), remainder_size);
                proof {
                    assert(y_fast_trie.key_set().contains(predecessor));
                    assert(ascending(infix_store.contents()));
                }
                y_fast_trie.set_infix_store(predecessor, infix_store);
            }
            proof {
                assert forall|i2: int|
                    0 <= i2 < i + 1 && target_size >= 2 implies (#[trigger] y_fast_trie.stored(samples@[i2])
                    matches Some(st) && pair_store(*st, sorted_keys@, ts, remainder_size, i2)) by {
                    if i2 < i {
                        assert(samples@[i2] < samples@[i as int]) by {
                            assert(sample_pos(i2, ts) < sample_pos(i as int, ts)) by (nonlinear_arith)
                                requires
                                    0 <= i2 < i,
                                    ts >= 1,
                            ;
                        }
                    }
                }
            }
            i = i + 1;
        }
        let r = Diva {
            y_fast_trie,
            target_size,
            remainder_size,
            sample_count: m,
            keys: Ghost(sorted_keys@),
        };
        proof {
            if m > 0 {
                assert(samples@[m - 1] == sorted_keys@[sample_pos(m - 1, ts)]);
            }
            assert forall|i2: int|
                0 <= i2 && sample_pos(i2 + 1, target_size as int) < r.sorted_keys().len()
                    && target_size >= 2 implies (#[trigger] r.store_of(
                r.sorted_keys()[sample_pos(i2, target_size as int)],
            ) matches Some(st) && pair_store(*st, r.sorted_keys(), target_size as int, remainder_size, i2)) by {
                if i2 + 1 >= m {
                    assert(sample_pos(i2 + 1, ts) >= m * ts) by (nonlinear_arith)
                        requires
                            i2 + 1 >= m,
                            ts >= 1,
                    ;
                }
                assert(samples@[i2] == sorted_keys@[sample_pos(i2, ts)]);
                assert(y_fast_trie.stored(samples@[i2]) is Some);
            }
            assert forall|x: u64| r.boundaries().contains(x) <==> exists|i: int|
                0 <= i && sample_pos(i, target_size as int) < r.sorted_keys().len()
                    && r.sorted_keys()[sample_pos(i, target_size as int)] == x by {
                if r.boundaries().contains(x) {
                    let t = choose|t: int| 0 <= t < samples@.len() && samples@[t] == x;
                    assert(samples@[t] == sorted_keys@[sample_pos(t, ts)]);
                }
                if exists|i: int|
                    0 <= i && sample_pos(i, target_size as int) < r.sorted_keys().len()
                        && r.sorted_keys()[sample_pos(i, target_size as int)] == x {
                    let t = choose|t: int|
                        0 <= t && sample_pos(t, target_size as int) < r.sorted_keys().len()
                            && r.sorted_keys()[sample_pos(t, target_size as int)] == x;
                    if t >= samples@.len() {
                        assert(sample_pos(t, ts) >= samples@.len() * ts) by (nonlinear_arith)
                            requires
                                t >= samples@.len(),
                                ts >= 1,
                        ;
                    }
                    assert(samples@[t] == x);
                }
            }
            assert forall|x: u64| r.y_fast_trie.key_set().contains(x) <==> exists|i: int|
                0 <= i && sample_pos(i, ts) < sorted_keys@.len() && sorted_keys@[sample_pos(i, ts)] == x by {
                assert(r.boundaries().contains(x) == r.y_fast_trie.key_set().contains(x));
            }
            assert forall|i2: int|
                0 <= i2 && sample_pos(i2 + 1, ts) < sorted_keys@.len() && ts >= 2 implies (
            #[trigger] r.y_fast_trie.stored(sorted_keys@[sample_pos(i2, ts)]) matches Some(st)
                && pair_store(*st, sorted_keys@, ts, remainder_size, i2)) by {
                assert(r.store_of(r.sorted_keys()[sample_pos(i2, target_size as int)]) is Some);
            }
        }
        r
    }

    /// Whether `key` may be one of the keys. A boundary is; a key below the first boundary is
    /// not; a key above the last boundary may be, as may one whose lower boundary has no store;
    /// any other key is looked up by its stored infix in the store of the boundary below it.
    pub fn may_contain(&self, key: u64) -> (r: bool)
        requires
            self.wf(),
        ensures
            r == match floor_key(self.boundaries(), key) {
                None => false,
                Some(lo) => lo == key || match ceiling_key(self.boundaries(), key) {
                    None => true,
                    Some(hi) => match self.store_of(lo) {
                        None => true,
                        Some(st) => matches_some(
                            st.contents(),
                            self.remainder_bits(),
                            store_infix(
                                diva_infix(lo, hi, key, self.remainder_bits()),
                                self.remainder_bits(),
                            ),
                        ),
                    },
                },
            },
            self.sorted_keys().contains(key) ==> r,
    {
        let ghost sorted = self.keys@;
        let ghost ts = self.target_size as int;
        let ghost rs = self.remainder_size;
        let ghost bounds = self.y_fast_trie.key_set();
        if self.y_fast_trie.contains(key) {
            proof {
                lemma_floor_key(bounds, key, Some(key));
            }
            return true;
        }
        let found_lower = self.y_fast_trie.predecessor(key);
        proof {
            lemma_floor_key(bounds, key, found_lower);
        }
        let lower = match found_lower {
            Some(b) => b,
            None => {
                proof {
                    if sorted.contains(key) {
                        let j = choose|j: int| 0 <= j < sorted.len() && sorted[j] == key;
                        assert(sorted[sample_pos(0, ts)] == sorted[0]);
                        assert(self.y_fast_trie.key_set().contains(sorted[0]));
                        if j > 0 {
                            assert(sorted[0] < sorted[j]);
                        }
                    }
                }
                return false;
            },
        };
        let found_upper = self.y_fast_trie.successor(key);
        proof {
            lemma_ceiling_key(bounds, key, found_upper);
        }
        let upper = match found_upper {
            Some(b) => b,
            None => {
                return true;
            },
        };
        let store = match self.y_fast_trie.get_infix_store(lower) {
            Some(st) => st,
            None => {
                return true;
            },
        };
        let (shared_prefix_len, redundant_bits, quotient_bits) =
            Self::get_shared_ignore_implicit_size(&lower, &upper, false);
        let key_msb = Self::leading_bit(key, shared_prefix_len);
        proof {
            Self::lemma_run_bound(lower, upper, 0);
        }
        let full = Self::extract_partial_key(
            key,
            shared_prefix_len,
            redundant_bits,
            quotient_bits,
            self.remainder_size,
            key_msb,
        );
        let infix = Self::store_bits(full, self.remainder_size);
        proof {
            assert(self.y_fast_trie.stored(lower) is Some);
            assert(infix == store_infix(diva_infix(lower, upper, key, rs), rs));
            assert forall|a: int, b: int| 0 <= a <= b < store.contents().len() implies quotient_of(
                store.contents()[a],
                rs,
            ) <= quotient_of(store.contents()[b], rs) by {
                let x = store.contents()[a];
                let y = store.contents()[b];
                let sh = rs as u64;
                assert(x <= y);
                assert(x <= y ==> x >> sh <= y >> sh) by (bit_vector);
            }
            assert(quotients_sorted(store.contents(), rs));
        }
        let r = store.may_contain(infix);
        proof {
            if sorted.contains(key) {
                broadcast use vstd::seq_lib::to_multiset_contains;

                let j = choose|j: int| 0 <= j < sorted.len() && sorted[j] == key;
                self.lemma_pair_of_key(key, lower, upper);
                let i = j / ts;
                let pi = pair_infixes(sorted, ts, rs, i);
                let t = j - sample_pos(i, ts) - 1;
                assert(0 <= j < self.sorted_keys().len() && self.sorted_keys()[j] == key);
                assert(sample_pos(i, self.stride()) < j < sample_pos(i + 1, self.stride()));
                assert(pair_store(*store, sorted, ts, rs, i));
                assert(sample_pos(i + 1, ts) == sample_pos(i, ts) + ts) by (nonlinear_arith);
                assert(0 <= t < pi.len());
                assert(pi[t] == infix);
                assert(pi.contains(infix));
                assert(pi.to_multiset().count(infix) > 0);
                assert(store.contents().to_multiset().count(infix) > 0);
                assert(store.contents().contains(infix));
                let u = choose|u: int| 0 <= u < store.contents().len() && store.contents()[u] == infix;
                assert(quotient_of(store.contents()[u], rs) == quotient_of(infix, rs));
                assert(matches_some(store.contents(), rs, infix));
            }
        }
        r
    }

    /// For a key that is not a boundary, its boundaries below and above are the samples around
    /// it, whose store holds its infix.
    proof fn lemma_pair_of_key(&self, key: u64, lower: u64, upper: u64)
        requires
            self.wf(),
            !self.y_fast_trie.key_set().contains(key),
            floor_of(self.y_fast_trie.key_set(), key, Some(lower)),
            ceiling_of(self.y_fast_trie.key_set(), key, Some(upper)),
        ensures
            forall|j: int|
                0 <= j < self.sorted_keys().len() && self.sorted_keys()[j] == key ==> {
                    let i = j / self.stride();
                    &&& sample_pos(i, self.stride()) < j < sample_pos(i + 1, self.stride())
                        < self.sorted_keys().len()
                    &&& self.stride() >= 2
                    &&& lower == self.sorted_keys()[sample_pos(i, self.stride())]
                    &&& upper == self.sorted_keys()[sample_pos(i + 1, self.stride())]
                    &&& self.y_fast_trie.stored(lower) matches Some(st) && pair_store(*st, self.sorted_keys(), self.stride(), self.remainder_size, i)
                    &&& pair_infixes(self.sorted_keys(), self.stride(), self.remainder_size, i)[j
                        - sample_pos(i, self.stride()) - 1] == store_infix(
                        diva_infix(lower, upper, key, self.remainder_size),
                        self.remainder_size,
                    )
                },
    {
        let sorted = self.keys@;
        let ts = self.target_size as int;
        assert forall|j: int| 0 <= j < sorted.len() && sorted[j] == key implies {
            let i = j / ts;
            &&& sample_pos(i, ts) < j < sample_pos(i + 1, ts) < sorted.len()
            &&& ts >= 2
            &&& lower == sorted[sample_pos(i, ts)]
            &&& upper == sorted[sample_pos(i + 1, ts)]
            &&& self.y_fast_trie.stored(lower) matches Some(st) && pair_store(*st, sorted, ts, self.remainder_size, i)
            &&& pair_infixes(sorted, ts, self.remainder_size, i)[j - sample_pos(i, ts) - 1]
                == store_infix(diva_infix(lower, upper, key, self.remainder_size), self.remainder_size)
        } by {
            let i = j / ts;
            vstd::arithmetic::div_mod::lemma_fundamental_div_mod(j, ts);
            vstd::arithmetic::div_mod::lemma_mod_pos_bound(j, ts);
            assert(sample_pos(i, ts) <= j < sample_pos(i + 1, ts)) by (nonlinear_arith)
                requires
                    j == ts * i + j % ts,
                    0 <= j % ts < ts,
            ;
            assert(i >= 0) by (nonlinear_arith)
                requires
                    j == ts * i + j % ts,
                    0 <= j % ts < ts,
                    j >= 0,
                    ts >= 1,
            ;
            assert(sample_pos(i, ts) >= 0) by (nonlinear_arith)
                requires
                    i >= 0,
                    ts >= 1,
            ;
            let lo = sorted[sample_pos(i, ts)];
            assert(self.y_fast_trie.key_set().contains(lo));
            if sample_pos(i, ts) == j {
                assert(false);
            }
            assert(lo < key);
            // `lower` is the sample at `i`
            let lk = choose|k: int|
                0 <= k && sample_pos(k, ts) < sorted.len() && sorted[sample_pos(k, ts)] == lower;
            if sample_pos(lk, ts) > j {
                assert(sorted[j] < sorted[sample_pos(lk, ts)]);
            }
            if lk > i {
                assert(sample_pos(lk, ts) >= sample_pos(i + 1, ts)) by (nonlinear_arith)
                    requires
                        lk >= i + 1,
                        ts >= 1,
                ;
            }
            if lk < i {
                assert(sample_pos(lk, ts) < sample_pos(i, ts)) by (nonlinear_arith)
                    requires
                        lk < i,
                        ts >= 1,
                ;
                assert(sorted[sample_pos(lk, ts)] < lo);
            }
            assert(lk == i);
            // `upper` is the sample at `i + 1`
            let uk = choose|k: int|
                0 <= k && sample_pos(k, ts) < sorted.len() && sorted[sample_pos(k, ts)] == upper;
            assert(uk >= 0);
            if sample_pos(uk, ts) < j {
                assert(sorted[sample_pos(uk, ts)] < sorted[j]);
            }
            if uk <= i {
                assert(sample_pos(uk, ts) <= sample_pos(i, ts)) by (nonlinear_arith)
                    requires
                        uk <= i,
                        ts >= 1,
                ;
            }
            if uk > i + 1 {
                assert(sample_pos(uk, ts) > sample_pos(i + 1, ts)) by (nonlinear_arith)
                    requires
                        uk > i + 1,
                        ts >= 1,
                ;
                assert(sample_pos(i + 1, ts) < sorted.len());
                let hi = sorted[sample_pos(i + 1, ts)];
                assert(self.y_fast_trie.key_set().contains(hi));
                assert(hi < upper);
                assert(hi > key);
            }
            assert(uk == i + 1);
            assert(sample_pos(i + 1, ts) == sample_pos(i, ts) + ts) by (nonlinear_arith);
            assert(self.y_fast_trie.stored(sorted[sample_pos(i, ts)]) is Some);
        }
    }
}

} // verus!
