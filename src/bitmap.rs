use vstd::prelude::*;

verus! {

const U64_BIT_SIZE: usize = 64;

/// Bit `i` of a bitmap stored as 64-bit words, least significant bit first.
pub open spec fn bit_at(data: Seq<u64>, i: int) -> bool {
    (data[i / 64] >> ((i % 64) as u64)) & 1u64 == 1u64
}

/// Number of set bits at positions `[0, p)`.
pub open spec fn rank_of(data: Seq<u64>, p: int) -> nat
    decreases p,
{
    if p <= 0 {
        0
    } else {
        rank_of(data, p - 1) + if bit_at(data, p - 1) {
            1nat
        } else {
            0nat
        }
    }
}

/// What `select(data, r)` answers: the position of the set bit with `r` set bits before it.
pub open spec fn select_of(data: Seq<u64>, r: int, res: Option<usize>) -> bool {
    match res {
        Some(p) => p < data.len() * 64 && bit_at(data, p as int) && rank_of(data, p as int) == r,
        None => rank_of(data, (data.len() * 64) as int) <= r,
    }
}

pub proof fn lemma_rank_monotone(data: Seq<u64>, a: int, b: int)
    requires
        0 <= a <= b,
    ensures
        rank_of(data, a) <= rank_of(data, b),
        rank_of(data, b) - rank_of(data, a) <= b - a,
    decreases b - a,
{
    if a < b {
        lemma_rank_monotone(data, a, b - 1);
    }
}

proof fn lemma_word_set(w: u64, b: u64, j: u64)
    requires
        b < 64,
        j < 64,
    ensures
        ((w | (1u64 << b)) >> j) & 1u64 == 1u64 <==> (j == b || (w >> j) & 1u64 == 1u64),
{
    assert(((w | (1u64 << b)) >> j) & 1u64 == 1u64 <==> (j == b || (w >> j) & 1u64 == 1u64))
        by (bit_vector)
        requires
            b < 64,
            j < 64,
    ;
}

proof fn lemma_word_clear(w: u64, b: u64, j: u64)
    requires
        b < 64,
        j < 64,
    ensures
        ((w & !(1u64 << b)) >> j) & 1u64 == 1u64 <==> (j != b && (w >> j) & 1u64 == 1u64),
{
    assert(((w & !(1u64 << b)) >> j) & 1u64 == 1u64 <==> (j != b && (w >> j) & 1u64 == 1u64))
        by (bit_vector)
        requires
            b < 64,
            j < 64,
    ;
}

/// Sets bit `pos`; every other bit keeps its value.
pub fn set_bit(data: &mut Vec<u64>, pos: usize)
    requires
        pos < old(data)@.len() * 64,
    ensures
        final(data)@.len() == old(data)@.len(),
        forall|i: int|
            0 <= i < final(data)@.len() * 64 ==> #[trigger] bit_at(final(data)@, i) == (i == pos
                || bit_at(old(data)@, i)),
{
    let w = pos / U64_BIT_SIZE;
    let b = pos % U64_BIT_SIZE;
    let nv = data[w] | (1u64 << (b as u64));
    data.set(w, nv);
    proof {
        assert forall|i: int| 0 <= i < final(data)@.len() * 64 implies #[trigger] bit_at(
            final(data)@,
            i,
        ) == (i == pos || bit_at(old(data)@, i)) by {
            if i / 64 == w as int {
                lemma_word_set(old(data)@[w as int], b as u64, (i % 64) as u64);
            }
        }
    }
}

/// Clears bit `pos`; every other bit keeps its value.
pub fn clear_bit(data: &mut Vec<u64>, pos: usize)
    requires
        pos < old(data)@.len() * 64,
    ensures
        final(data)@.len() == old(data)@.len(),
        forall|i: int|
            0 <= i < final(data)@.len() * 64 ==> #[trigger] bit_at(final(data)@, i) == (i != pos
                && bit_at(old(data)@, i)),
{
    let w = pos / U64_BIT_SIZE;
    let b = pos % U64_BIT_SIZE;
    let nv = data[w] & !(1u64 << (b as u64));
    data.set(w, nv);
    proof {
        assert forall|i: int| 0 <= i < final(data)@.len() * 64 implies #[trigger] bit_at(
            final(data)@,
            i,
        ) == (i != pos && bit_at(old(data)@, i)) by {
            if i / 64 == w as int {
                lemma_word_clear(old(data)@[w as int], b as u64, (i % 64) as u64);
            }
        }
    }
}

/// Reads bit `pos`.
pub fn get_bit(data: &[u64], pos: usize) -> (r: bool)
    requires
        pos < data@.len() * 64,
    ensures
        r == bit_at(data@, pos as int),
{
    (data[pos / U64_BIT_SIZE] >> ((pos % U64_BIT_SIZE) as u64)) & 1u64 == 1u64
}

/// Number of set bits at positions `[start, end)`.
pub(crate) fn rank_between(data: &[u64], start: usize, end: usize) -> (r: usize)
    requires
        start <= end <= data@.len() * 64,
    ensures
        r == rank_of(data@, end as int) - rank_of(data@, start as int),
{
    let mut count: usize = 0;
    let mut i: usize = start;
    proof {
        lemma_rank_monotone(data@, start as int, end as int);
    }
    while i < end
        invariant
            start <= i <= end <= data@.len() * 64,
            count == rank_of(data@, i as int) - rank_of(data@, start as int),
            rank_of(data@, start as int) <= rank_of(data@, i as int),
            count <= i - start,
        decreases end - i,
    {
        if get_bit(data, i) {
            count = count + 1;
        }
        i = i + 1;
    }
    count
}

/// Number of set bits at positions `[0, pos)`.
pub fn rank(data: &[u64], pos: usize) -> (r: usize)
    requires
        pos <= data@.len() * 64,
    ensures
        r == rank_of(data@, pos as int),
{
    rank_between(data, 0, pos)
}

/// Position of the first set bit at or after `start` that has `rank` set bits in `[start, p)`.
pub(crate) fn select_from(data: &[u64], start: usize, rank: usize) -> (r: Option<usize>)
    requires
        data@.len() * 64 <= usize::MAX,
        start <= data@.len() * 64,
    ensures
        match r {
            Some(p) => start <= p < data@.len() * 64 && bit_at(data@, p as int) && rank_of(
                data@,
                p as int,
            ) == rank_of(data@, start as int) + rank,
            None => rank_of(data@, (data@.len() * 64) as int) <= rank_of(data@, start as int)
                + rank,
        },
{
    let n = data.len() * U64_BIT_SIZE;
    let mut count: usize = 0;
    let mut i: usize = start;
    while i < n
        invariant
            n == data@.len() * 64,
            start <= i <= n,
            count + rank_of(data@, start as int) == rank_of(data@, i as int),
            count <= rank,
        decreases n - i,
    {
        if get_bit(data, i) {
            if count == rank {
                return Some(i);
            }
            count = count + 1;
        }
        i = i + 1;
    }
    None
}

/// Position of the set bit that has `rank` set bits before it, if there is one.
pub fn select(data: &[u64], rank: usize) -> (r: Option<usize>)
    requires
        data@.len() * 64 <= usize::MAX,
    ensures
        select_of(data@, rank as int, r),
{
    select_from(data, 0, rank)
}

/// Position within `word` of the set bit that has `rank` set bits below it, if there is one.
pub fn select_in_word(word: u64, rank: usize) -> (r: Option<usize>)
    ensures
        select_of(seq![word], rank as int, r),
{
    let data = [word];
    let s: &[u64] = &data;
    assert(s@ =~= seq![word]);
    select(s, rank)
}

/// `rank` helped by the number of set bits before `half_pos`, which the caller keeps.
pub fn rank_cached(data: &[u64], pos: usize, half_pos: usize, cached_popcount: usize) -> (r: usize)
    requires
        pos <= data@.len() * 64,
        half_pos <= data@.len() * 64,
        pos <= half_pos || half_pos % 64 == 0,
        cached_popcount == rank_of(data@, half_pos as int),
    ensures
        r == rank_of(data@, pos as int),
{
    if pos <= half_pos {
        rank(data, pos)
    } else {
        let word_offset = half_pos / U64_BIT_SIZE;
        let start = word_offset * U64_BIT_SIZE;
        let remaining = rank_between(data, start, pos);
        proof {
            assert(start == half_pos) by (nonlinear_arith)
                requires
                    start == (half_pos / 64) * 64,
                    half_pos % 64 == 0,
            ;
            lemma_rank_monotone(data@, 0, half_pos as int);
            lemma_rank_monotone(data@, half_pos as int, pos as int);
        }
        cached_popcount + remaining
    }
}

/// `select` helped by the number of set bits before `half_pos`, which the caller keeps.
pub fn select_cached(data: &[u64], rank_val: usize, half_pos: usize, cached_popcount: usize) -> (r:
    Option<usize>)
    requires
        data@.len() * 64 <= usize::MAX,
        half_pos <= data@.len() * 64,
        rank_val < cached_popcount || half_pos % 64 == 0,
        cached_popcount == rank_of(data@, half_pos as int),
    ensures
        select_of(data@, rank_val as int, r),
{
    if rank_val < cached_popcount {
        select(data, rank_val)
    } else {
        let remaining_rank = rank_val - cached_popcount;
        let word_offset = half_pos / U64_BIT_SIZE;
        let start = word_offset * U64_BIT_SIZE;
        assert(start == half_pos) by (nonlinear_arith)
            requires
                start == (half_pos / 64) * 64,
                half_pos % 64 == 0,
        ;
        select_from(data, start, remaining_rank)
    }
}

} // verus!
