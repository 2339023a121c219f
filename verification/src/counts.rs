//! Per-(cell, species) statistics: observation count, individual total, and
//! a bitmask of distinct observation years anchored at a reference year.
//! Year offsets outside the mask's 64-bit width leave the mask unchanged, so
//! outlier years never shift out of range.

use crate::numeric::bit_set;
use crate::numeric::count_bits_upto;
use crate::numeric::mask_bits;
use crate::numeric::popcount64;
use vstd::prelude::*;

verus! {

/// The accumulator for one species within one cell.
#[derive(PartialEq, Eq, Structural, Clone, Copy, Debug)]
pub struct Counts {
    /// How many accepted records were folded in.
    pub observations: u64,
    /// The saturating sum of the records' individual counts.
    pub individuals: u64,
    /// A bitmask of the distinct year offsets seen.
    pub years: u64,
}

/// The distance of a year from the anchor year: the bit offset it occupies.
pub open spec fn year_offset(year: int, anchor: int) -> int {
    if anchor >= year {
        anchor - year
    } else {
        year - anchor
    }
}

/// A mask with the year's bit set, when its offset fits the mask's width;
/// the mask unchanged otherwise.
pub open spec fn spec_mark_year(mask: u64, year: int, anchor: int) -> u64 {
    let off = year_offset(year, anchor);
    if 0 <= off < 64 {
        mask | (1u64 << (off as u64))
    } else {
        mask
    }
}

/// Saturating addition on the individual total.
pub open spec fn spec_sat_add(a: int, b: int) -> int {
    if a + b > u64::MAX {
        u64::MAX as int
    } else {
        a + b
    }
}

proof fn lemma_or_bit(m: u64, k: u64, j: u64)
    requires
        k < 64,
        j < 64,
    ensures
        ((m | (1u64 << k)) >> j) & 1u64 == 1u64 <==> (((m >> j) & 1u64 == 1u64) || j == k),
{
    assert(((m | (1u64 << k)) >> j) & 1u64 == 1u64 <==> (((m >> j) & 1u64 == 1u64) || j == k))
        by (bit_vector)
        requires
            k < 64,
            j < 64,
    ;
}

/// Marking a year sets exactly its offset's bit, and only when the offset
/// fits; every other bit keeps its value.
pub proof fn lemma_mark_year_bits(mask: u64, year: int, anchor: int)
    ensures
        forall|i: int|
            #[trigger] bit_set(spec_mark_year(mask, year, anchor), i) <==> (bit_set(mask, i) || (0
                <= i < 64 && i == year_offset(year, anchor))),
{
    let off = year_offset(year, anchor);
    if 0 <= off < 64 {
        assert forall|i: int|
            #[trigger] bit_set(spec_mark_year(mask, year, anchor), i) <==> (bit_set(mask, i) || (0
                <= i < 64 && i == off)) by {
            if 0 <= i < 64 {
                lemma_or_bit(mask, off as u64, i as u64);
            }
        }
    }
}

/// Marking years in either order yields the same mask: the merge is a
/// commutative bitwise or.
pub proof fn lemma_mark_year_commutes(mask: u64, y1: int, y2: int, anchor: int)
    ensures
        spec_mark_year(spec_mark_year(mask, y1, anchor), y2, anchor) == spec_mark_year(
            spec_mark_year(mask, y2, anchor),
            y1,
            anchor,
        ),
{
    let o1 = year_offset(y1, anchor);
    let o2 = year_offset(y2, anchor);
    if 0 <= o1 < 64 && 0 <= o2 < 64 {
        let k1 = o1 as u64;
        let k2 = o2 as u64;
        assert((mask | (1u64 << k1)) | (1u64 << k2) == (mask | (1u64 << k2)) | (1u64 << k1))
            by (bit_vector);
    }
}

impl Counts {
    /// The empty accumulator.
    pub fn new() -> (c: Counts)
        ensures
            c == (Counts { observations: 0u64, individuals: 0u64, years: 0u64 }),
    {
        Counts { observations: 0, individuals: 0, years: 0 }
    }

    /// Folds one accepted record in: one more observation, the individuals
    /// added with saturation, and the year's bit merged into the mask.
    pub fn count_observation(&mut self, num_individuals: u64, year: u64, anchor: u64)
        requires
            old(self).observations < u64::MAX,
        ensures
            final(self).observations == old(self).observations + 1,
            final(self).individuals == spec_sat_add(
                old(self).individuals as int,
                num_individuals as int,
            ),
            final(self).years == spec_mark_year(old(self).years, year as int, anchor as int),
            *final(self) == spec_apply(*old(self), num_individuals, year, anchor),
    {
        self.observations = self.observations + 1;
        self.individuals = self.individuals.saturating_add(num_individuals);
        let off: u64 = if anchor >= year {
            anchor - year
        } else {
            year - anchor
        };
        if off < 64 {
            self.years = self.years | (1u64 << off);
        }
    }

    /// The number of distinct years recorded in the mask.
    pub fn num_years(&self) -> (n: u32)
        ensures
            n == count_bits_upto(self.years, 64),
            n <= 64,
    {
        popcount64(self.years)
    }
}

/// One fold of the spec-level accumulator.
pub open spec fn spec_apply(c: Counts, num_individuals: u64, year: u64, anchor: u64) -> Counts {
    Counts {
        observations: if c.observations < u64::MAX {
            (c.observations + 1) as u64
        } else {
            u64::MAX
        },
        individuals: spec_sat_add(c.individuals as int, num_individuals as int) as u64,
        years: spec_mark_year(c.years, year as int, anchor as int),
    }
}

/// The accumulator after folding a sequence of (individuals, year) records.
pub open spec fn spec_fold_counts(entries: Seq<(u64, u64)>, anchor: u64) -> Counts
    decreases entries.len(),
{
    if entries.len() == 0 {
        Counts { observations: 0u64, individuals: 0u64, years: 0u64 }
    } else {
        spec_apply(
            spec_fold_counts(entries.drop_last(), anchor),
            entries.last().0,
            entries.last().1,
            anchor,
        )
    }
}

/// The saturating sum of a sequence of individual counts.
pub open spec fn spec_sat_sum(s: Seq<u64>) -> int
    decreases s.len(),
{
    if s.len() == 0 {
        0
    } else {
        spec_sat_add(spec_sat_sum(s.drop_last()), s.last() as int)
    }
}

/// The distinct in-range year offsets of a fold sequence.
pub open spec fn spec_year_offsets(entries: Seq<(u64, u64)>, anchor: u64) -> Set<int> {
    Set::new(
        |o: int|
            0 <= o < 64 && exists|k: int|
                0 <= k < entries.len() && o == year_offset(#[trigger] entries[k].1 as int, anchor as int),
    )
}

/// After N folds the observation count is N and the individual total is the
/// saturating sum of the folded counts.
pub proof fn lemma_fold_totals(entries: Seq<(u64, u64)>, anchor: u64)
    requires
        entries.len() <= u64::MAX,
    ensures
        spec_fold_counts(entries, anchor).observations == entries.len(),
        spec_fold_counts(entries, anchor).individuals == spec_sat_sum(
            entries.map_values(|e: (u64, u64)| e.0),
        ),
    decreases entries.len(),
{
    if entries.len() > 0 {
        lemma_fold_totals(entries.drop_last(), anchor);
        assert(entries.map_values(|e: (u64, u64)| e.0).drop_last() =~= entries.drop_last()
            .map_values(|e: (u64, u64)| e.0));
        lemma_sat_sum_bounds(entries.map_values(|e: (u64, u64)| e.0).drop_last());
    } else {
        assert(entries.map_values(|e: (u64, u64)| e.0).len() == 0);
    }
}

proof fn lemma_sat_sum_bounds(s: Seq<u64>)
    ensures
        0 <= spec_sat_sum(s) <= u64::MAX,
    decreases s.len(),
{
    if s.len() > 0 {
        lemma_sat_sum_bounds(s.drop_last());
    }
}

/// The year mask after a fold holds exactly the in-range offsets of the
/// folded years: a statement over the set of entries, so any fold order
/// gives the same mask.
pub proof fn lemma_fold_years(entries: Seq<(u64, u64)>, anchor: u64)
    ensures
        mask_bits(spec_fold_counts(entries, anchor).years) == spec_year_offsets(entries, anchor),
    decreases entries.len(),
{
    if entries.len() == 0 {
        assert(forall|j: u64| j < 64 ==> (0u64 >> j) & 1u64 == 0u64) by (bit_vector);
        assert(mask_bits(0u64) =~= spec_year_offsets(entries, anchor));
    } else {
        let prefix = entries.drop_last();
        lemma_fold_years(prefix, anchor);
        lemma_mark_year_bits(
            spec_fold_counts(prefix, anchor).years,
            entries.last().1 as int,
            anchor as int,
        );
        assert forall|o: int|
            spec_year_offsets(entries, anchor).contains(o) == mask_bits(
                spec_fold_counts(entries, anchor).years,
            ).contains(o) by {
            if spec_year_offsets(entries, anchor).contains(o) {
                let k = choose|k: int|
                    0 <= k < entries.len() && o == year_offset(
                        #[trigger] entries[k].1 as int,
                        anchor as int,
                    );
                if k < entries.len() - 1 {
                    assert(prefix[k] == entries[k]);
                    assert(spec_year_offsets(prefix, anchor).contains(o));
                }
            }
            if mask_bits(spec_fold_counts(entries, anchor).years).contains(o) {
                if bit_set(spec_fold_counts(prefix, anchor).years, o) {
                    assert(mask_bits(spec_fold_counts(prefix, anchor).years).contains(o));
                    assert(spec_year_offsets(prefix, anchor).contains(o));
                    let k = choose|k: int|
                        0 <= k < prefix.len() && o == year_offset(
                            #[trigger] prefix[k].1 as int,
                            anchor as int,
                        );
                    assert(entries[k] == prefix[k]);
                    assert(spec_year_offsets(entries, anchor).contains(o));
                } else {
                    assert(o == year_offset(entries[entries.len() - 1].1 as int, anchor as int));
                    assert(spec_year_offsets(entries, anchor).contains(o));
                }
            }
        }
        assert(mask_bits(spec_fold_counts(entries, anchor).years) =~= spec_year_offsets(
            entries,
            anchor,
        ));
    }
}

/// The set of set bits below position `n`.
spec fn bits_below(m: u64, n: int) -> Set<int> {
    Set::new(|i: int| 0 <= i < n && bit_set(m, i))
}

proof fn lemma_count_bits_is_card(m: u64, n: int)
    requires
        0 <= n <= 64,
    ensures
        bits_below(m, n).finite(),
        bits_below(m, n).len() == count_bits_upto(m, n),
    decreases n,
{
    if n == 0 {
        assert(bits_below(m, 0) =~= Set::<int>::empty());
    } else {
        lemma_count_bits_is_card(m, n - 1);
        if bit_set(m, n - 1) {
            assert(bits_below(m, n) =~= bits_below(m, n - 1).insert(n - 1));
            assert(!bits_below(m, n - 1).contains(n - 1));
        } else {
            assert(bits_below(m, n) =~= bits_below(m, n - 1));
        }
    }
}

/// The population count of a mask is the cardinality of its bit set; so
/// after any fold the reported year diversity is exactly the number of
/// distinct in-range year offsets folded in.
pub proof fn lemma_popcount_is_distinct_years(entries: Seq<(u64, u64)>, anchor: u64)
    ensures
        spec_year_offsets(entries, anchor).finite(),
        count_bits_upto(spec_fold_counts(entries, anchor).years, 64) == spec_year_offsets(
            entries,
            anchor,
        ).len(),
{
    let m = spec_fold_counts(entries, anchor).years;
    lemma_fold_years(entries, anchor);
    lemma_count_bits_is_card(m, 64);
    assert(bits_below(m, 64) =~= mask_bits(m));
}

} // verus!
