use vstd::prelude::*;

use crate::bitmap::{
    bit_at, clear_bit, get_bit, lemma_rank_monotone, rank_between, rank_of, select_from, set_bit,
};

verus! {

/// Number of quotients, and of bits in the occupieds bitmap.
pub const TARGET_SIZE: usize = 1024;

/// Number of size grades.
pub const SIZE_GRADE_COUNT: usize = 31;

const U64_BITS: usize = 64;

/// Words that the occupieds bitmap takes.
pub const OCCUPIEDS_WORDS: usize = 16;

/// Word at which the occupieds bitmap starts; word 0 holds the cached popcounts.
pub const OCCUPIEDS_START: usize = 1;

/// Word at which the runends bitmap starts.
pub const RUNENDS_START: usize = 17;

/// Largest number of slots, that of the last size grade.
pub const MAX_SLOTS: usize = 2326;

/// Largest remainder width.
pub const MAX_REMAINDER_SIZE: u8 = 16;

/// Slots of each size grade; grade 14 is the neutral one, 1024 slots.
pub open spec fn scaled_size(grade: int) -> int {
    if grade == 0 {
        463
    } else if grade == 1 {
        488
    } else if grade == 2 {
        514
    } else if grade == 3 {
        541
    } else if grade == 4 {
        570
    } else if grade == 5 {
        600
    } else if grade == 6 {
        632
    } else if grade == 7 {
        666
    } else if grade == 8 {
        701
    } else if grade == 9 {
        738
    } else if grade == 10 {
        777
    } else if grade == 11 {
        818
    } else if grade == 12 {
        861
    } else if grade == 13 {
        907
    } else if grade == 14 {
        1024
    } else if grade == 15 {
        1078
    } else if grade == 16 {
        1135
    } else if grade == 17 {
        1195
    } else if grade == 18 {
        1258
    } else if grade == 19 {
        1325
    } else if grade == 20 {
        1395
    } else if grade == 21 {
        1469
    } else if grade == 22 {
        1547
    } else if grade == 23 {
        1629
    } else if grade == 24 {
        1715
    } else if grade == 25 {
        1806
    } else if grade == 26 {
        1901
    } else if grade == 27 {
        2002
    } else if grade == 28 {
        2108
    } else if grade == 29 {
        2219
    } else {
        2326
    }
}

/// The smallest grade with room for `n` slots, or the last grade.
pub open spec fn grade_for(n: int) -> int
    decreases 31 - 0int,
{
    grade_from(n, 0)
}

pub open spec fn grade_from(n: int, g: int) -> int
    decreases 31 - g,
{
    if g >= 30 || scaled_size(g) >= n {
        if g >= 30 { 30 } else { g }
    } else {
        grade_from(n, g + 1)
    }
}

/// Words that `n` bits take.
pub open spec fn words_for(n: int) -> int {
    (n + 63) / 64
}

/// Words of the whole layout for `num_slots` slots of `rs` bits.
pub open spec fn total_words(num_slots: int, rs: int) -> int {
    RUNENDS_START + words_for(num_slots) + words_for(num_slots * rs)
}

/// The high part of an infix, above its `rs` remainder bits.
pub open spec fn quotient_of(infix: u64, rs: u8) -> u64 {
    infix >> (rs as u64)
}

/// A word whose low `n` bits are set.
pub open spec fn low_mask(n: u64) -> u64 {
    ((1u64 << n) - 1) as u64
}

/// The low `rs` bits of an infix.
pub open spec fn remainder_of(infix: u64, rs: u8) -> u64 {
    infix & low_mask(rs as u64)
}

/// The value held by the `n` bits from bit `base` on, the first of them least significant.
pub open spec fn bits_value(data: Seq<u64>, base: int, n: int) -> u64
    decreases n,
{
    if n <= 0 {
        0
    } else {
        bits_value(data, base, n - 1) | if bit_at(data, base + n - 1) {
            1u64 << ((n - 1) as u64)
        } else {
            0u64
        }
    }
}

/// Whether slot `i` ends the run of its quotient, for a store built from `infixes`.
pub open spec fn ends_run(infixes: Seq<u64>, rs: u8, i: int) -> bool {
    0 <= i < infixes.len() && (i == infixes.len() - 1 || quotient_of(infixes[i], rs)
        != quotient_of(infixes[i + 1], rs))
}

/// Whether one of the first `upto` infixes has quotient `q`.
pub open spec fn quotient_seen(infixes: Seq<u64>, rs: u8, q: int, upto: int) -> bool {
    exists|i: int| 0 <= i < upto && quotient_of(#[trigger] infixes[i], rs) == q
}

/// Whether some infix has quotient `q`.
pub open spec fn has_quotient(infixes: Seq<u64>, rs: u8, q: int) -> bool {
    quotient_seen(infixes, rs, q, infixes.len() as int)
}

/// First bit of the occupieds bitmap.
pub open spec fn occupieds_bit() -> int {
    (OCCUPIEDS_START * 64) as int
}

/// First bit of the runends bitmap.
pub open spec fn runends_bit() -> int {
    (RUNENDS_START * 64) as int
}

/// First bit of the slots, for `num_slots` slots.
pub open spec fn slots_bit(num_slots: int) -> int {
    (RUNENDS_START + words_for(num_slots)) * 64
}

/// The remainder in slot `i` of a layout with `num_slots` slots of `rs` bits.
pub open spec fn slot_in(data: Seq<u64>, num_slots: int, rs: int, i: int) -> u64 {
    bits_value(data, slots_bit(num_slots) + i * rs, rs)
}

/// Growing the grade does not pass the last one, and stops at room for `n` where there is any.
proof fn lemma_grade_from(n: int, g: int)
    requires
        0 <= g <= 30,
    ensures
        g <= grade_from(n, g) <= 30,
        n <= 2326 ==> scaled_size(grade_from(n, g)) >= n,
    decreases 31 - g,
{
    if !(g >= 30 || scaled_size(g) >= n) {
        lemma_grade_from(n, g + 1);
    }
}

proof fn lemma_slot_apart(i: int, t: int, rs: int)
    requires
        0 <= i < t,
        0 <= rs,
    ensures
        i * rs + rs <= t * rs,
        (t + 1) * rs == t * rs + rs,
        0 <= i * rs,
{
    assert(i * rs + rs <= t * rs) by (nonlinear_arith)
        requires
            0 <= i < t,
            0 <= rs,
    ;
    assert((t + 1) * rs == t * rs + rs) by (nonlinear_arith);
    assert(0 <= i * rs) by (nonlinear_arith)
        requires
            0 <= i,
            0 <= rs,
    ;
}

proof fn lemma_mask_step(v: u64, m: u64)
    requires
        m < 63,
    ensures
        (v >> m) & 1u64 == 1u64 ==> (v & low_mask(m)) | (1u64 << m) == v & low_mask(
            (m + 1) as u64,
        ),
        (v >> m) & 1u64 != 1u64 ==> (v & low_mask(m)) | 0u64 == v & low_mask((m + 1) as u64),
{
    let m1 = (m + 1) as u64;
    assert((v >> m) & 1u64 == 1u64 ==> (v & (((1u64 << m) - 1) as u64)) | (1u64 << m) == v & (((
    1u64 << m1) - 1) as u64)) by (bit_vector)
        requires
            m < 63,
            m1 == m + 1,
    ;
    assert((v >> m) & 1u64 != 1u64 ==> (v & (((1u64 << m) - 1) as u64)) | 0u64 == v & (((1u64
        << m1) - 1) as u64)) by (bit_vector)
        requires
            m < 63,
            m1 == m + 1,
    ;
}

/// Bits that spell the low `n` bits of `v` hold the value of those bits.
proof fn lemma_bits_value_of(data: Seq<u64>, base: int, n: int, v: u64)
    requires
        0 <= n < 63,
        forall|j: int| 0 <= j < n ==> #[trigger] bit_at(data, base + j) == ((v >> (j as u64))
            & 1u64 == 1u64),
    ensures
        bits_value(data, base, n) == v & low_mask(n as u64),
    decreases n,
{
    if n == 0 {
        assert(v & (((1u64 << 0u64) - 1) as u64) == 0) by (bit_vector);
    } else {
        lemma_bits_value_of(data, base, n - 1, v);
        assert(bit_at(data, base + (n - 1)) == ((v >> ((n - 1) as u64)) & 1u64 == 1u64));
        lemma_mask_step(v, (n - 1) as u64);
    }
}

/// The value of a range of bits depends on those bits alone.
proof fn lemma_bits_value_frame(d1: Seq<u64>, d2: Seq<u64>, base: int, n: int)
    requires
        forall|j: int| base <= j < base + n ==> #[trigger] bit_at(d1, j) == bit_at(d2, j),
    ensures
        bits_value(d1, base, n) == bits_value(d2, base, n),
    decreases n,
{
    if n > 0 {
        lemma_bits_value_frame(d1, d2, base, n - 1);
        assert(bit_at(d1, base + n - 1) == bit_at(d2, base + n - 1));
    }
}

/// The number of set bits in a range depends on those bits alone.
proof fn lemma_rank_frame(d1: Seq<u64>, d2: Seq<u64>, a: int, b: int)
    requires
        0 <= a <= b,
        forall|j: int| a <= j < b ==> #[trigger] bit_at(d1, j) == bit_at(d2, j),
    ensures
        rank_of(d1, b) - rank_of(d1, a) == rank_of(d2, b) - rank_of(d2, a),
    decreases b - a,
{
    if a < b {
        lemma_rank_frame(d1, d2, a, b - 1);
        assert(bit_at(d1, b - 1) == bit_at(d2, b - 1));
    }
}

/// The occupieds, runends and slots of `store` are those of `infixes` in slot order, with
/// remainders of `rs` bits: the quotients present are those of the infixes, each slot holds its
/// infix's remainder, and a slot ends a run where the next infix has another quotient.
pub open spec fn content_facts(store: InfixStore, infixes: Seq<u64>, rs: u8) -> bool {
    &&& store.elems() == infixes.len()
    &&& store.remainder_bits() == rs
    &&& store.slot_count() == scaled_size(grade_for(infixes.len() as int))
    &&& forall|i: int| 0 <= i < infixes.len() ==> quotient_of(#[trigger] infixes[i], rs) < TARGET_SIZE
    &&& forall|q: int|
        0 <= q < TARGET_SIZE ==> (#[trigger] store.occupied(q) <==> has_quotient(infixes, rs, q))
    &&& forall|i: int|
        0 <= i < store.slot_count() ==> (#[trigger] store.runend(i) <==> ends_run(infixes, rs, i))
    &&& forall|i: int|
        0 <= i < infixes.len() ==> #[trigger] store.slot(i) == remainder_of(infixes[i], rs)
    &&& forall|i: int| infixes.len() <= i < store.slot_count() ==> #[trigger] store.slot(i) == 0
}

/// `store` is well formed and holds `infixes` in slot order, with remainders of `rs` bits.
pub open spec fn holds_infixes(store: InfixStore, infixes: Seq<u64>, rs: u8) -> bool {
    &&& store.wf()
    &&& store.contents() == infixes
    &&& content_facts(store, infixes, rs)
}

/// The quotients of `infixes` never decrease.
pub open spec fn quotients_sorted(infixes: Seq<u64>, rs: u8) -> bool {
    forall|i: int, j: int|
        0 <= i <= j < infixes.len() ==> quotient_of(infixes[i], rs) <= quotient_of(infixes[j], rs)
}

/// Some infix of `infixes` has the quotient and the remainder of `infix`.
pub open spec fn matches_some(infixes: Seq<u64>, rs: u8, infix: u64) -> bool {
    exists|i: int|
        0 <= i < infixes.len() && quotient_of(#[trigger] infixes[i], rs) == quotient_of(infix, rs)
            && remainder_of(infixes[i], rs) == remainder_of(infix, rs)
}

/// The number of set bits in `[a, b)` is 0 when none of them is set.
proof fn lemma_rank_zero(d: Seq<u64>, a: int, b: int)
    requires
        0 <= a <= b,
        forall|j: int| a <= j < b ==> !#[trigger] bit_at(d, j),
    ensures
        rank_of(d, b) == rank_of(d, a),
    decreases b - a,
{
    if a < b {
        lemma_rank_zero(d, a, b - 1);
    }
}

/// A packed quotient-filter table: occupieds, runends and remainder slots in one word vector.
pub struct InfixStore {
    elem_count: u16,
    size_grade: u8,
    remainder_size: u8,
    data: Vec<u64>,
    contents: Ghost<Seq<u64>>,
}

impl InfixStore {
    /// Number of slots of this store.
    pub closed spec fn slot_count(&self) -> int {
        scaled_size(self.size_grade as int)
    }

    pub closed spec fn elems(&self) -> int {
        self.elem_count as int
    }

    pub closed spec fn remainder_bits(&self) -> u8 {
        self.remainder_size
    }

    /// Whether quotient `q` has a run.
    pub closed spec fn occupied(&self, q: int) -> bool {
        bit_at(self.data@, occupieds_bit() + q)
    }

    /// Whether slot `i` ends a run.
    pub closed spec fn runend(&self, i: int) -> bool {
        bit_at(self.data@, runends_bit() + i)
    }

    /// The remainder held in slot `i`.
    pub closed spec fn slot(&self, i: int) -> u64 {
        slot_in(self.data@, self.slot_count(), self.remainder_size as int, i)
    }

    /// The two cached popcounts in word 0: occupieds before `TARGET_SIZE / 2` in the upper half,
    /// runends before half the slots in the lower half.
    pub closed spec fn cached_popcounts(&self) -> u64 {
        self.data@[0]
    }

    pub closed spec fn occupieds_half_rank(&self) -> int {
        rank_of(self.data@, 64 + 512int) - rank_of(self.data@, 64int)
    }

    pub closed spec fn runends_half_rank(&self) -> int {
        rank_of(self.data@, (RUNENDS_START * 64) as int + self.slot_count() / 2) - rank_of(
            self.data@,
            (RUNENDS_START * 64) as int,
        )
    }

    /// The words of the layout: cached popcounts, occupieds, runends, slots.
    pub closed spec fn words(&self) -> Seq<u64> {
        self.data@
    }

    /// The infixes the store was built from, in slot order.
    pub closed spec fn contents(&self) -> Seq<u64> {
        self.contents@
    }

    pub closed spec fn wf(&self) -> bool {
        &&& content_facts(*self, self.contents@, self.remainder_size)
        &&& self.size_grade < SIZE_GRADE_COUNT
        &&& self.remainder_size <= MAX_REMAINDER_SIZE
        &&& self.data@.len() == total_words(self.slot_count(), self.remainder_size as int)
        &&& self.elem_count <= self.slot_count()
        &&& self.data@[0] == ((self.occupieds_half_rank() as u64) << 32u64) | (
        self.runends_half_rank() as u64)
    }

    /// A store over `infixes`, in slot order: each infix is its quotient above `remainder_size`
    /// remainder bits.
    pub fn new_with_infixes(infixes: &[u64], remainder_size: u8) -> (r: Self)
        requires
            remainder_size <= MAX_REMAINDER_SIZE,
            infixes@.len() <= MAX_SLOTS,
            forall|i: int|
                0 <= i < infixes@.len() ==> quotient_of(#[trigger] infixes@[i], remainder_size)
                    < TARGET_SIZE,
        ensures
            holds_infixes(r, infixes@, remainder_size),
            r.words().len() == total_words(r.slot_count(), remainder_size as int),
            infixes@.len() == 0 ==> forall|i: int| 0 <= i < r.words().len() ==> #[trigger] r.words()[i]
                == 0,
    {
        let size_grade = Self::choose_size_grade(infixes.len());
        let num_slots = Self::scaled_sizes(size_grade);
        proof {
            lemma_grade_from(infixes@.len() as int, 0);
        }
        let runends_words = (num_slots as usize + U64_BITS - 1) / U64_BITS;
        let slots_bits = num_slots as usize * remainder_size as usize;
        let slots_words = (slots_bits + U64_BITS - 1) / U64_BITS;
        let total = OCCUPIEDS_START + OCCUPIEDS_WORDS + runends_words + slots_words;
        let mut data: Vec<u64> = vec![0u64; total];
        if infixes.len() == 0 {
            let r = InfixStore {
                elem_count: 0,
                size_grade,
                remainder_size,
                data,
                contents: Ghost(infixes@),
            };
            proof {
                let ns = num_slots as int;
                let rs = remainder_size as int;
                let d = r.data@;
                assert(runends_words == words_for(ns));
                assert(slots_words == words_for(ns * rs));
                assert(ns * rs <= 2326 * 16) by (nonlinear_arith)
                    requires
                        0 <= ns <= 2326,
                        0 <= rs <= 16,
                ;
                assert(ns <= words_for(ns) * 64);
                assert(ns * rs <= words_for(ns * rs) * 64);
                assert(forall|k: u64| (0u64 >> k) & 1u64 == 0u64) by (bit_vector);
                assert forall|b: int| 0 <= b < d.len() * 64 implies !#[trigger] bit_at(d, b) by {
                    assert(d[b / 64] == 0);
                }
                lemma_rank_zero(d, 64, 576);
                lemma_rank_zero(d, runends_bit(), runends_bit() + ns / 2);
                assert(((0u64 << 32u64) | 0u64) == 0) by (bit_vector);
                assert forall|i: int| 0 <= i < ns implies #[trigger] r.slot(i) == 0 by {
                    lemma_slot_apart(i, ns, rs);
                    lemma_bits_value_of(d, slots_bit(ns) + i * rs, rs, 0);
                    assert(0u64 & low_mask(rs as u64) == 0) by (bit_vector);
                }
                assert forall|q: int| 0 <= q < TARGET_SIZE implies !(#[trigger] r.occupied(q)) by {}
                assert forall|i: int| 0 <= i < ns implies !(#[trigger] r.runend(i)) by {}
            }
            return r;
        }
        Self::load_infixes_to_store(&mut data, infixes, remainder_size, num_slots);
        proof {
            let ns = num_slots as int;
            assert(runends_words == words_for(ns));
            assert(slots_words == words_for(ns * remainder_size));
        }
        InfixStore {
            elem_count: infixes.len() as u16,
            size_grade,
            remainder_size,
            data,
            contents: Ghost(infixes@),
        }
    }

    /// Writes the infixes into a zeroed layout with `num_slots` slots and caches the popcounts.
    fn load_infixes_to_store(data: &mut Vec<u64>, infixes: &[u64], remainder_size: u8, num_slots: u16)
        requires
            remainder_size <= MAX_REMAINDER_SIZE,
            num_slots <= MAX_SLOTS,
            infixes@.len() <= num_slots,
            old(data)@.len() == total_words(num_slots as int, remainder_size as int),
            forall|i: int| 0 <= i < old(data)@.len() ==> old(data)@[i] == 0,
            forall|i: int|
                0 <= i < infixes@.len() ==> quotient_of(#[trigger] infixes@[i], remainder_size)
                    < TARGET_SIZE,
        ensures
            final(data)@.len() == old(data)@.len(),
            forall|q: int|
                0 <= q < TARGET_SIZE ==> (#[trigger] bit_at(final(data)@, occupieds_bit() + q)
                    <==> has_quotient(infixes@, remainder_size, q)),
            forall|i: int|
                0 <= i < num_slots ==> (#[trigger] bit_at(final(data)@, runends_bit() + i)
                    <==> ends_run(infixes@, remainder_size, i)),
            forall|i: int|
                0 <= i < infixes@.len() ==> #[trigger] slot_in(
                    final(data)@,
                    num_slots as int,
                    remainder_size as int,
                    i,
                ) == remainder_of(infixes@[i], remainder_size),
            forall|i: int|
                infixes@.len() <= i < num_slots ==> #[trigger] slot_in(
                    final(data)@,
                    num_slots as int,
                    remainder_size as int,
                    i,
                ) == 0,
            final(data)@[0] == (((rank_of(final(data)@, 64 + 512int) - rank_of(final(data)@, 64int)) as u64)
                << 32u64) | ((rank_of(final(data)@, runends_bit() + num_slots / 2) - rank_of(
                final(data)@,
                runends_bit(),
            )) as u64),
    {
        let ghost ns = num_slots as int;
        let ghost rs = remainder_size as int;
        let ghost n = infixes@.len() as int;
        let runends_words = (num_slots as usize + U64_BITS - 1) / U64_BITS;
        let slots_start = RUNENDS_START + runends_words;
        let mut slot_pos: usize = 0;
        let mut prev_quotient: Option<u64> = None;
        proof {
            assert(slots_start * 64 == slots_bit(ns));
            assert(ns * rs <= 2326 * 16) by (nonlinear_arith)
                requires
                    0 <= ns <= 2326,
                    0 <= rs <= 16,
            ;
            assert(ns <= words_for(ns) * 64);
            assert(ns * rs <= words_for(ns * rs) * 64);
            assert(forall|k: u64| (0u64 >> k) & 1u64 == 0u64) by (bit_vector);
            assert forall|b: int| 0 <= b < data@.len() * 64 implies !#[trigger] bit_at(data@, b) by {
                assert(data@[b / 64] == 0);
            }
        }
        while slot_pos < infixes.len()
            invariant
                data@.len() == total_words(ns, rs),
                ns == num_slots,
                rs == remainder_size,
                n == infixes@.len(),
                n <= ns <= MAX_SLOTS,
                rs <= 16,
                ns * rs <= 2326 * 16,
                slots_start == RUNENDS_START + words_for(ns),
                ns <= words_for(ns) * 64,
                ns * rs <= words_for(ns * rs) * 64,
                slots_start * 64 == slots_bit(ns),
                slot_pos <= n,
                forall|i: int|
                    0 <= i < n ==> quotient_of(#[trigger] infixes@[i], remainder_size) < TARGET_SIZE,
                slot_pos == 0 ==> prev_quotient is None,
                slot_pos > 0 ==> prev_quotient == Some(quotient_of(infixes@[slot_pos - 1], remainder_size)),
                forall|q: int|
                    0 <= q < TARGET_SIZE ==> (#[trigger] bit_at(data@, occupieds_bit() + q)
                        <==> quotient_seen(infixes@, remainder_size, q, slot_pos as int)),
                forall|i: int|
                    0 <= i < ns ==> (#[trigger] bit_at(data@, runends_bit() + i) <==> (i + 1
                        < slot_pos && quotient_of(infixes@[i], remainder_size) != quotient_of(
                        infixes@[i + 1],
                        remainder_size,
                    ))),
                forall|i: int|
                    0 <= i < slot_pos ==> #[trigger] slot_in(data@, ns, rs, i) == remainder_of(
                        infixes@[i],
                        remainder_size,
                    ),
                forall|b: int|
                    slots_bit(ns) + slot_pos * rs <= b < data@.len() * 64 ==> !#[trigger] bit_at(data@, b),
            decreases n - slot_pos,
        {
            let infix = infixes[slot_pos];
            let (quotient, remainder) = Self::split_infix(infix, remainder_size);
            let ghost d0 = data@;
            set_bit(data, OCCUPIEDS_START * U64_BITS + quotient as usize);
            let is_last_in_run = match prev_quotient {
                Some(p) => p != quotient,
                None => false,
            };
            let ghost d1 = data@;
            if is_last_in_run {
                set_bit(data, RUNENDS_START * U64_BITS + slot_pos - 1);
            }
            let ghost d2 = data@;
            proof {
                lemma_slot_apart(slot_pos as int, ns, rs);
                assert(ns * rs <= words_for(ns * rs) * 64);
                assert(data@.len() * 64 <= usize::MAX);
            }
            Self::write_slot(data, slots_start, slot_pos, remainder, remainder_size);
            proof {
                let t = slot_pos as int;
                assert forall|q: int| 0 <= q < TARGET_SIZE implies (#[trigger] bit_at(
                    data@,
                    occupieds_bit() + q,
                ) <==> quotient_seen(infixes@, remainder_size, q, t + 1)) by {
                    if quotient_seen(infixes@, remainder_size, q, t + 1) && q != quotient {
                        let i = choose|i: int|
                            0 <= i < t + 1 && quotient_of(#[trigger] infixes@[i], remainder_size) == q;
                        assert(i < t);
                    }
                    if q == quotient {
                        assert(quotient_of(infixes@[t], remainder_size) == q);
                    }
                }
                assert forall|i: int| 0 <= i < t implies #[trigger] slot_in(data@, ns, rs, i)
                    == remainder_of(infixes@[i], remainder_size) by {
                    lemma_slot_apart(i, t, rs);
                    assert forall|j: int|
                        slots_bit(ns) + i * rs <= j < slots_bit(ns) + i * rs + rs implies #[trigger] bit_at(
                            d0,
                            j,
                        ) == bit_at(data@, j) by {
                        assert(bit_at(data@, j) == bit_at(d2, j));
                        assert(bit_at(d2, j) == bit_at(d1, j));
                        assert(bit_at(d1, j) == bit_at(d0, j));
                    }
                    lemma_bits_value_frame(d0, data@, slots_bit(ns) + i * rs, rs);
                    assert(slot_in(d0, ns, rs, i) == remainder_of(infixes@[i], remainder_size));
                }
                lemma_slot_apart(t, t + 1, rs);
                let rem = remainder_of(infixes@[t], remainder_size);
                let m = low_mask(remainder_size as u64);
                let x = infixes@[t];
                assert(rem == x & m);
                assert((x & m) & m == x & m) by (bit_vector);
                assert(slot_in(data@, ns, rs, t) == rem);
            }
            prev_quotient = Some(quotient);
            slot_pos = slot_pos + 1;
        }
        let ghost d3 = data@;
        proof {
            assert(n * rs <= ns * rs) by (nonlinear_arith)
                requires
                    0 <= n <= ns,
                    0 <= rs,
            ;
        }
        if slot_pos > 0 {
            set_bit(data, RUNENDS_START * U64_BITS + slot_pos - 1);
        }
        let ghost d4 = data@;
        proof {
            assert forall|i: int| 0 <= i < n implies #[trigger] slot_in(data@, ns, rs, i)
                == remainder_of(infixes@[i], remainder_size) by {
                lemma_slot_apart(i, n, rs);
                assert forall|j: int|
                    slots_bit(ns) + i * rs <= j < slots_bit(ns) + i * rs + rs implies #[trigger] bit_at(
                        d3,
                        j,
                    ) == bit_at(data@, j) by {
                    assert(j >= slots_bit(ns));
                }
                lemma_bits_value_frame(d3, data@, slots_bit(ns) + i * rs, rs);
                assert(slot_in(d3, ns, rs, i) == remainder_of(infixes@[i], remainder_size));
            }
            assert forall|i: int| n <= i < ns implies #[trigger] slot_in(data@, ns, rs, i) == 0 by {
                lemma_slot_apart(n, i + 1, rs);
                if i > n {
                    lemma_slot_apart(n, i, rs);
                }
                lemma_slot_apart(i, ns, rs);
                assert(ns * rs <= words_for(ns * rs) * 64);
                lemma_bits_value_of(data@, slots_bit(ns) + i * rs, rs, 0);
                assert(0u64 & low_mask(rs as u64) == 0) by (bit_vector);
            }
        }
        Self::compute_popcounts(data, OCCUPIEDS_START, RUNENDS_START, num_slots);
        proof {
            assert forall|i: int| 0 <= i < n implies #[trigger] slot_in(data@, ns, rs, i)
                == remainder_of(infixes@[i], remainder_size) by {
                lemma_slot_apart(i, n, rs);
                assert(n * rs <= ns * rs);
                lemma_bits_value_frame(d4, data@, slots_bit(ns) + i * rs, rs);
                assert(slot_in(d4, ns, rs, i) == remainder_of(infixes@[i], remainder_size));
            }
            assert forall|i: int| n <= i < ns implies #[trigger] slot_in(data@, ns, rs, i) == 0 by {
                lemma_slot_apart(i, ns, rs);
                lemma_bits_value_frame(d4, data@, slots_bit(ns) + i * rs, rs);
                assert(slot_in(d4, ns, rs, i) == 0);
            }
        }
    }

    /// Writes the low `remainder_size` bits of `remainder` into slot `slot_index` of the slots
    /// that start at word `slots_start`; no other bit changes.
    fn write_slot(
        data: &mut Vec<u64>,
        slots_start: usize,
        slot_index: usize,
        remainder: u64,
        remainder_size: u8,
    )
        requires
            remainder_size <= MAX_REMAINDER_SIZE,
            slots_start * 64 + slot_index * remainder_size + remainder_size <= old(data)@.len()
                * 64,
            old(data)@.len() * 64 <= usize::MAX,
        ensures
            final(data)@.len() == old(data)@.len(),
            forall|b: int|
                0 <= b < final(data)@.len() * 64 && !(slots_start * 64 + slot_index * remainder_size
                    <= b < slots_start * 64 + slot_index * remainder_size + remainder_size)
                    ==> #[trigger] bit_at(final(data)@, b) == bit_at(old(data)@, b),
            bits_value(
                final(data)@,
                slots_start * 64 + slot_index * remainder_size,
                remainder_size as int,
            ) == remainder & low_mask(remainder_size as u64),
    {
        let bit_pos = slots_start * U64_BITS + slot_index * remainder_size as usize;
        let mut j: u8 = 0;
        while j < remainder_size
            invariant
                j <= remainder_size <= MAX_REMAINDER_SIZE,
                bit_pos == slots_start * 64 + slot_index * remainder_size,
                bit_pos + remainder_size <= old(data)@.len() * 64,
                old(data)@.len() * 64 <= usize::MAX,
                data@.len() == old(data)@.len(),
                forall|jj: int|
                    0 <= jj < j ==> #[trigger] bit_at(data@, bit_pos + jj) == ((remainder >> (
                    jj as u64)) & 1u64 == 1u64),
                forall|b: int|
                    0 <= b < data@.len() * 64 && !(bit_pos <= b < bit_pos + j) ==> #[trigger] bit_at(
                        data@,
                        b,
                    ) == bit_at(old(data)@, b),
            decreases remainder_size - j,
        {
            if (remainder >> j) & 1u64 == 1u64 {
                set_bit(data, bit_pos + j as usize);
            } else {
                clear_bit(data, bit_pos + j as usize);
            }
            j = j + 1;
        }
        proof {
            lemma_bits_value_of(data@, bit_pos as int, remainder_size as int, remainder);
        }
    }

    /// Caches in word 0 the occupieds set before `TARGET_SIZE / 2` and the runends set before
    /// half the slots; no other word changes.
    fn compute_popcounts(
        data: &mut Vec<u64>,
        occupieds_start: usize,
        runends_start: usize,
        num_slots: u16,
    )
        requires
            occupieds_start == OCCUPIEDS_START,
            runends_start == RUNENDS_START,
            num_slots <= MAX_SLOTS,
            runends_bit() + num_slots <= old(data)@.len() * 64,
        ensures
            final(data)@.len() == old(data)@.len(),
            forall|b: int|
                64 <= b < final(data)@.len() * 64 ==> #[trigger] bit_at(final(data)@, b) == bit_at(
                    old(data)@,
                    b,
                ),
            final(data)@[0] == (((rank_of(final(data)@, 64 + 512int) - rank_of(final(data)@, 64int)) as u64)
                << 32u64) | ((rank_of(final(data)@, runends_bit() + num_slots / 2) - rank_of(
                final(data)@,
                runends_bit(),
            )) as u64),
    {
        let occupieds_half = TARGET_SIZE / 2;
        let runends_half = num_slots as usize / 2;
        let occupieds_popcount = rank_between(
            data.as_slice(),
            occupieds_start * U64_BITS,
            occupieds_start * U64_BITS + occupieds_half,
        );
        let runends_popcount = rank_between(
            data.as_slice(),
            runends_start * U64_BITS,
            runends_start * U64_BITS + runends_half,
        );
        let ghost before = data@;
        data.set(0, ((occupieds_popcount as u64) << 32u64) | (runends_popcount as u64));
        proof {
            assert forall|b: int| 64 <= b < data@.len() * 64 implies #[trigger] bit_at(data@, b)
                == bit_at(before, b) by {
                assert(b / 64 != 0);
            }
            lemma_rank_frame(before, data@, 64, 576);
            lemma_rank_frame(before, data@, runends_bit(), runends_bit() + num_slots / 2);
        }
    }

    /// Slots of grade `grade`.

    /// Slots of grade `grade`.
    fn scaled_sizes(grade: u8) -> (r: u16)
        requires
            grade < SIZE_GRADE_COUNT,
        ensures
            r == scaled_size(grade as int),
            463 <= r <= MAX_SLOTS,
    {
        match grade {
            0 => 463,
            1 => 488,
            2 => 514,
            3 => 541,
            4 => 570,
            5 => 600,
            6 => 632,
            7 => 666,
            8 => 701,
            9 => 738,
            10 => 777,
            11 => 818,
            12 => 861,
            13 => 907,
            14 => 1024,
            15 => 1078,
            16 => 1135,
            17 => 1195,
            18 => 1258,
            19 => 1325,
            20 => 1395,
            21 => 1469,
            22 => 1547,
            23 => 1629,
            24 => 1715,
            25 => 1806,
            26 => 1901,
            27 => 2002,
            28 => 2108,
            29 => 2219,
            _ => 2326,
        }
    }

    /// The smallest grade with room for `num_elements`, or the last grade.
    fn choose_size_grade(num_elements: usize) -> (r: u8)
        ensures
            r == grade_for(num_elements as int),
            r < SIZE_GRADE_COUNT,
    {
        let mut grade: u8 = 0;
        while grade < 30
            invariant
                grade <= 30,
                grade_from(num_elements as int, grade as int) == grade_for(num_elements as int),
            decreases 30 - grade,
        {
            if Self::scaled_sizes(grade) as usize >= num_elements {
                return grade;
            }
            grade = grade + 1;
        }
        grade
    }

    /// Splits an infix into its quotient and its low `remainder_size` bits.
    pub fn split_infix(infix: u64, remainder_size: u8) -> (r: (u64, u64))
        requires
            remainder_size < 64,
        ensures
            r == (quotient_of(infix, remainder_size), remainder_of(infix, remainder_size)),
    {
        let quotient = infix >> remainder_size;
        let rs = remainder_size as u64;
        assert(1u64 << rs >= 1) by (bit_vector)
            requires
                rs < 64,
        ;
        let remainder = infix & ((1u64 << remainder_size) - 1);
        assert(remainder == remainder_of(infix, remainder_size));
        (quotient, remainder)
    }

    /// Word offsets of the occupieds, the runends and the slots.
    fn get_offsets(&self) -> (r: (usize, usize, usize))
        requires
            self.wf(),
        ensures
            r.0 == OCCUPIEDS_START,
            r.1 == RUNENDS_START,
            r.2 == RUNENDS_START + words_for(self.slot_count()),
    {
        let num_slots = Self::scaled_sizes(self.size_grade);
        let runends_words = (num_slots as usize + U64_BITS - 1) / U64_BITS;
        (OCCUPIEDS_START, RUNENDS_START, RUNENDS_START + runends_words)
    }

    /// Whether quotient `quotient` has a run.
    pub fn is_occupied(&self, quotient: usize) -> (r: bool)
        requires
            self.wf(),
            quotient < TARGET_SIZE,
        ensures
            r == self.occupied(quotient as int),
    {
        let (occupieds_start, _, _) = self.get_offsets();
        proof {
            self.lemma_layout();
        }
        get_bit(self.data.as_slice(), occupieds_start * U64_BITS + quotient)
    }

    /// Whether slot `slot_pos` ends a run.
    pub fn is_runend(&self, slot_pos: usize) -> (r: bool)
        requires
            self.wf(),
            slot_pos < self.slot_count(),
        ensures
            r == self.runend(slot_pos as int),
    {
        let (_, runends_start, _) = self.get_offsets();
        proof {
            self.lemma_layout();
        }
        get_bit(self.data.as_slice(), runends_start * U64_BITS + slot_pos)
    }

    /// The remainder held in slot `slot_index`.
    pub fn read_slot(&self, slot_index: usize) -> (r: u64)
        requires
            self.wf(),
            slot_index < self.slot_count(),
        ensures
            r == self.slot(slot_index as int),
    {
        let (_, _, slots_start) = self.get_offsets();
        proof {
            self.lemma_layout();
            lemma_slot_apart(slot_index as int, self.slot_count(), self.remainder_size as int);
        }
        let bit_pos = slots_start * U64_BITS + slot_index * self.remainder_size as usize;
        let mut result: u64 = 0;
        let mut j: u8 = 0;
        while j < self.remainder_size
            invariant
                self.wf(),
                j <= self.remainder_size,
                bit_pos == slots_bit(self.slot_count()) + slot_index * self.remainder_size,
                bit_pos + self.remainder_size <= self.data@.len() * 64,
                self.data@.len() * 64 <= 640 * 64,
                result == bits_value(self.data@, bit_pos as int, j as int),
            decreases self.remainder_size - j,
        {
            if get_bit(self.data.as_slice(), bit_pos + j as usize) {
                result = result | (1u64 << j);
            } else {
                result = result | 0u64;
            }
            j = j + 1;
        }
        result
    }

    /// The layout fits in memory, and the slots end inside the data.
    proof fn lemma_layout(&self)
        requires
            self.wf(),
        ensures
            463 <= self.slot_count() <= MAX_SLOTS,
            self.slot_count() <= words_for(self.slot_count()) * 64,
            self.slot_count() * self.remainder_size <= words_for(
                self.slot_count() * self.remainder_size as int,
            ) * 64,
            self.data@.len() * 64 <= 640 * 64,
            self.data@.len() * 64 == slots_bit(self.slot_count()) + words_for(
                self.slot_count() * self.remainder_size as int,
            ) * 64,
    {
        let ns = self.slot_count();
        let rs = self.remainder_size as int;
        assert(ns * rs <= 2326 * 16) by (nonlinear_arith)
            requires
                0 <= ns <= 2326,
                0 <= rs <= 16,
        ;
    }

    /// Number of infixes stored.
    pub fn elem_count(&self) -> (r: u16)
        ensures
            r == self.elems(),
    {
        self.elem_count
    }

    /// Width of each remainder, in bits.
    pub fn remainder_size(&self) -> (r: u8)
        ensures
            r == self.remainder_bits(),
    {
        self.remainder_size
    }

    /// Number of slots.
    pub fn num_slots(&self) -> (r: u16)
        requires
            self.wf(),
        ensures
            r == self.slot_count(),
    {
        Self::scaled_sizes(self.size_grade)
    }

    /// Word 0: the cached popcounts.
    pub fn cached_popcount_word(&self) -> (r: u64)
        requires
            self.wf(),
        ensures
            r == ((self.occupieds_half_rank() as u64) << 32u64) | (self.runends_half_rank() as u64),
    {
        self.data[0]
    }

    /// Occupied quotients below `v`.
    spec fn occupied_below(&self, v: int) -> int {
        rank_of(self.data@, occupieds_bit() + v) - rank_of(self.data@, occupieds_bit())
    }

    /// Runends before slot `p`.
    spec fn runends_before(&self, p: int) -> int {
        rank_of(self.data@, runends_bit() + p) - rank_of(self.data@, runends_bit())
    }

    /// With quotients in order, the runs ended before slot `p` are the quotients present up
    /// to that of slot `p - 1`, less its own run where that run goes on.
    proof fn lemma_runs_before(&self, p: int)
        requires
            self.wf(),
            quotients_sorted(self.contents(), self.remainder_size),
            1 <= p <= self.contents().len(),
        ensures
            self.runends_before(p) == self.occupied_below(
                quotient_of(self.contents()[p - 1], self.remainder_size) + 1,
            ) - 1 + if self.runend(p - 1) {
                1int
            } else {
                0int
            },
        decreases p,
    {
        let s = self.contents();
        let rs = self.remainder_size;
        let d = self.data@;
        let v = quotient_of(s[p - 1], rs) as int;
        assert(quotient_of(s[p - 1], rs) < TARGET_SIZE);
        assert(self.occupied(v));
        assert(has_quotient(s, rs, v)) by {
            assert(quotient_of(s[p - 1], rs) == v);
        }
        if p == 1 {
            assert forall|j: int| occupieds_bit() <= j < occupieds_bit() + v implies !#[trigger] bit_at(d, j) by {
                let w = j - occupieds_bit();
                assert(self.occupied(w) == bit_at(d, j));
                if has_quotient(s, rs, w) {
                    let k = choose|k: int| 0 <= k < s.len() && quotient_of(#[trigger] s[k], rs) == w;
                    assert(quotient_of(s[0], rs) <= quotient_of(s[k], rs));
                }
            }
            lemma_rank_zero(d, occupieds_bit(), occupieds_bit() + v);
        } else {
            self.lemma_runs_before(p - 1);
            let u = quotient_of(s[p - 2], rs) as int;
            assert(quotient_of(s[p - 2], rs) <= quotient_of(s[p - 1], rs));
            if u == v {
                assert(!ends_run(s, rs, p - 2));
                assert(!self.runend(p - 2));
            } else {
                assert(ends_run(s, rs, p - 2));
                assert(self.runend(p - 2));
                assert forall|j: int| occupieds_bit() + u + 1 <= j < occupieds_bit() + v implies !#[trigger] bit_at(d, j) by {
                    let w = j - occupieds_bit();
                    assert(self.occupied(w) == bit_at(d, j));
                    if has_quotient(s, rs, w) {
                        let k = choose|k: int| 0 <= k < s.len() && quotient_of(#[trigger] s[k], rs) == w;
                        if k <= p - 2 {
                            assert(quotient_of(s[k], rs) <= quotient_of(s[p - 2], rs));
                        } else {
                            assert(quotient_of(s[p - 1], rs) <= quotient_of(s[k], rs));
                        }
                    }
                }
                lemma_rank_zero(d, occupieds_bit() + u + 1, occupieds_bit() + v);
            }
        }
    }

    /// From a slot of quotient `q` on, some slot of quotient `q` ends its run.
    proof fn lemma_run_end_exists(&self, k: int) -> (l: int)
        requires
            self.wf(),
            quotients_sorted(self.contents(), self.remainder_size),
            0 <= k < self.contents().len(),
        ensures
            k <= l < self.contents().len(),
            quotient_of(self.contents()[l], self.remainder_size) == quotient_of(
                self.contents()[k],
                self.remainder_size,
            ),
            ends_run(self.contents(), self.remainder_size, l),
        decreases self.contents().len() - k,
    {
        let s = self.contents();
        let rs = self.remainder_size;
        if k == s.len() - 1 || quotient_of(s[k], rs) != quotient_of(s[k + 1], rs) {
            k
        } else {
            self.lemma_run_end_exists(k + 1)
        }
    }

    /// Whether some stored infix has the quotient and the remainder of `infix`. The run of the
    /// quotient ends at the runend whose rank is the number of occupied quotients below it; the
    /// run starts after the previous runend.
    pub fn may_contain(&self, infix: u64) -> (r: bool)
        requires
            self.wf(),
            quotient_of(infix, self.remainder_bits()) < TARGET_SIZE,
        ensures
            quotients_sorted(self.contents(), self.remainder_bits()) ==> (r <==> matches_some(
                self.contents(),
                self.remainder_bits(),
                infix,
            )),
    {
        let ghost s = self.contents();
        let ghost rs = self.remainder_size;
        proof {
            self.lemma_layout();
        }
        let (quotient, remainder) = Self::split_infix(infix, self.remainder_size);
        let q = quotient as usize;
        if !self.is_occupied(q) {
            proof {
                assert forall|i: int| 0 <= i < s.len() implies !(quotient_of(#[trigger] s[i], rs) == quotient) by {
                    if quotient_of(s[i], rs) == quotient {
                        assert(has_quotient(s, rs, q as int));
                    }
                }
            }
            return false;
        }
        let occupied_rank = rank_between(
            self.data.as_slice(),
            OCCUPIEDS_START * U64_BITS,
            OCCUPIEDS_START * U64_BITS + q + 1,
        );
        proof {
            lemma_rank_monotone(self.data@, occupieds_bit(), occupieds_bit() + q);
        }
        let run_index = occupied_rank - 1;
        let found = select_from(self.data.as_slice(), RUNENDS_START * U64_BITS, run_index);
        let runend_pos = match found {
            Some(p) => p,
            None => {
                proof {
                    if quotients_sorted(s, rs) {
                        let k = choose|k: int| 0 <= k < s.len() && quotient_of(#[trigger] s[k], rs) == q;
                        let l = self.lemma_run_end_exists(k);
                        self.lemma_runs_before(l + 1);
                        assert(self.runend(l));
                        lemma_rank_monotone(self.data@, runends_bit() + l + 1, (self.data@.len() * 64) as int);
                    }
                }
                return false;
            },
        };
        let slot = runend_pos - RUNENDS_START * U64_BITS;
        if slot >= self.num_slots() as usize || slot >= self.elem_count as usize {
            proof {
                if quotients_sorted(s, rs) {
                    let k = choose|k: int| 0 <= k < s.len() && quotient_of(#[trigger] s[k], rs) == q;
                    let l = self.lemma_run_end_exists(k);
                    self.lemma_runs_before(l + 1);
                    assert(self.runend(l));
                    let a = runends_bit() + l;
                    let b = runend_pos as int;
                    if b < a {
                        lemma_rank_monotone(self.data@, b + 1, a);
                    } else if b > a {
                        lemma_rank_monotone(self.data@, a + 1, b);
                    }
                }
            }
            return false;
        }
        proof {
            if quotients_sorted(s, rs) {
                assert(self.runend(slot as int));
                self.lemma_runs_before(slot as int + 1);
                let vs = quotient_of(s[slot as int], rs) as int;
                assert(self.occupied(vs)) by {
                    assert(has_quotient(s, rs, vs));
                }
                if vs < q {
                    lemma_rank_monotone(self.data@, occupieds_bit() + vs + 1, occupieds_bit() + q);
                } else if vs > q {
                    lemma_rank_monotone(self.data@, occupieds_bit() + q + 1, occupieds_bit() + vs);
                }
                assert(vs == q);
            }
        }
        let mut start = slot;
        while start > 0 && !self.is_runend(start - 1)
            invariant
                self.wf(),
                s == self.contents(),
                rs == self.remainder_size,
                start <= slot < s.len(),
                slot < self.slot_count(),
                quotients_sorted(s, rs) ==> forall|k: int|
                    start <= k <= slot ==> quotient_of(#[trigger] s[k], rs) == quotient,
            decreases start,
        {
            proof {
                if quotients_sorted(s, rs) {
                    assert(!ends_run(s, rs, start - 1));
                }
            }
            start = start - 1;
        }
        let mut j = start;
        while j <= slot
            invariant
                self.wf(),
                s == self.contents(),
                rs == self.remainder_size,
                remainder == remainder_of(infix, rs),
                quotient == quotient_of(infix, rs),
                start <= j <= slot + 1,
                slot < s.len(),
                slot < self.slot_count(),
                quotients_sorted(s, rs) ==> forall|k: int|
                    start <= k <= slot ==> quotient_of(#[trigger] s[k], rs) == quotient,
                forall|k: int| start <= k < j ==> remainder_of(#[trigger] s[k], rs) != remainder,
            decreases slot + 1 - j,
        {
            if self.read_slot(j) == remainder {
                return true;
            }
            j = j + 1;
        }
        proof {
            if quotients_sorted(s, rs) {
                assert(ends_run(s, rs, slot as int));
                assert forall|i: int| 0 <= i < s.len() && quotient_of(#[trigger] s[i], rs) == quotient
                    implies remainder_of(s[i], rs) != remainder by {
                    if i < start {
                        assert(start > 0);
                        assert(self.runend(start - 1));
                        assert(ends_run(s, rs, start - 1));
                        assert(quotient_of(s[i], rs) <= quotient_of(s[start - 1], rs));
                        assert(quotient_of(s[start - 1], rs) <= quotient_of(s[start as int], rs));
                    } else if i > slot {
                        assert(quotient_of(s[slot + 1], rs) <= quotient_of(s[i], rs));
                        assert(quotient_of(s[slot as int], rs) <= quotient_of(s[slot + 1], rs));
                    }
                }
            }
        }
        false
    }
}

impl Default for InfixStore {
    /// An empty store with no remainder bits.
    fn default() -> (r: Self)
        ensures
            r.wf(),
            r.elems() == 0,
            r.remainder_bits() == 0,
    {
        let none: Vec<u64> = Vec::new();
        InfixStore::new_with_infixes(none.as_slice(), 0)
    }
}

} // verus!
