//! One generic aggregation engine, parameterized by a feed description:
//! required column names, an ordered check chain, the year window, and the
//! anchor year. Each feed is a configuration instance, not a copy of the
//! pipeline. The engine reads one data line at a time and maintains the
//! partition invariant: accepted plus rejected equals lines read.

use crate::agg::first_index_of;
use crate::agg::grid_folded;
use crate::agg::grid_obs_le;
use crate::agg::keys_bounded;
use crate::agg::seq_has;
use crate::agg::Grid;
use crate::bytes::spec_split;
use crate::bytes::spec_strip_newline;
use crate::bytes::split_fields;
use crate::bytes::strip_newline;
use crate::bytes::views;
use crate::bytes::TAB;
use crate::filter::binders_unique;
use crate::filter::check_col;
use crate::filter::evaluate;
use crate::filter::field_at;
use crate::filter::first_failing;
use crate::filter::position_of;
use crate::filter::spec_field_at;
use crate::filter::u64_ok;
use crate::filter::year_text;
use crate::filter::ColumnCheck;
use crate::filter::Verdict;
use crate::grid::spec_cell_index;
use crate::grid::RegionKey;
use crate::parse::digits_value;
use crate::parse::parse_u64;
use crate::parse::scaled_value;
use vstd::prelude::*;
use vstd::string::StringSliceAdditionalSpecFns;
use vstd::slice::slice_to_vec;

verus! {

/// A feed description: which columns the engine needs, the ordered check
/// chain over them, where the record's own fields live, and the year model.
pub struct FeedSpec {
    /// The required column names, resolved against the header by exact match.
    pub columns: Vec<Vec<u8>>,
    /// The ordered data-quality checks; positions double as rejection reasons.
    pub checks: Vec<ColumnCheck>,
    /// Logical column of the species name.
    pub name_col: usize,
    /// Logical column of the individual count; an unparseable count reads as 1.
    pub count_col: usize,
    /// Logical column bound as latitude.
    pub lat_col: usize,
    /// Logical column bound as longitude.
    pub lon_col: usize,
    /// Logical column bound as the year.
    pub year_col: usize,
    /// Whether the year is the leading four bytes of a date field.
    pub year_from_date: bool,
    /// The anchor year of the diversity bitmask.
    pub anchor_year: u64,
}

/// A usable feed: every check reads a declared column, each keying field is
/// bound exactly once, and the binders agree with the feed's own fields.
pub open spec fn feed_wf(feed: FeedSpec) -> bool {
    &&& forall|k: int|
        0 <= k < feed.checks@.len() ==> check_col(#[trigger] feed.checks@[k])
            < feed.columns@.len()
    &&& binders_unique(feed.checks@)
    &&& feed.name_col < feed.columns@.len()
    &&& feed.count_col < feed.columns@.len()
    &&& exists|k: int|
        0 <= k < feed.checks@.len() && ((#[trigger] feed.checks@[k]) matches
            ColumnCheck::BindLatitude { col } && col == feed.lat_col)
    &&& exists|k: int|
        0 <= k < feed.checks@.len() && ((#[trigger] feed.checks@[k]) matches
            ColumnCheck::BindLongitude { col } && col == feed.lon_col)
    &&& exists|k: int|
        0 <= k < feed.checks@.len() && ((#[trigger] feed.checks@[k]) matches
            ColumnCheck::BindYear { col, from_date, .. } && col == feed.year_col && from_date
            == feed.year_from_date)
}

/// The sum of a sequence of counters.
pub open spec fn sum_seq(s: Seq<u64>) -> int
    decreases s.len(),
{
    if s.len() == 0 {
        0
    } else {
        sum_seq(s.drop_last()) + s.last()
    }
}

pub proof fn lemma_sum_nonneg(s: Seq<u64>)
    ensures
        sum_seq(s) >= 0,
    decreases s.len(),
{
    if s.len() > 0 {
        lemma_sum_nonneg(s.drop_last());
    }
}

pub proof fn lemma_sum_elem(s: Seq<u64>, i: int)
    requires
        0 <= i < s.len(),
    ensures
        s[i] <= sum_seq(s),
    decreases s.len(),
{
    lemma_sum_nonneg(s.drop_last());
    if i == s.len() - 1 {
    } else {
        lemma_sum_elem(s.drop_last(), i);
    }
}

pub proof fn lemma_sum_update(s: Seq<u64>, i: int, x: u64)
    requires
        0 <= i < s.len(),
    ensures
        sum_seq(s.update(i, x)) == sum_seq(s) - s[i] + x,
    decreases s.len(),
{
    if i == s.len() - 1 {
        assert(s.update(i, x).drop_last() =~= s.drop_last());
    } else {
        assert(s.update(i, x).drop_last() =~= s.drop_last().update(i, x));
        lemma_sum_update(s.drop_last(), i, x);
    }
}

/// The latitude a passing row binds, in micro-degrees.
pub open spec fn rec_lat(feed: FeedSpec, idxs: Seq<usize>, fields: Seq<Seq<u8>>) -> int {
    scaled_value(spec_field_at(fields, idxs[feed.lat_col as int] as int))
}

/// The longitude a passing row binds, in micro-degrees.
pub open spec fn rec_lon(feed: FeedSpec, idxs: Seq<usize>, fields: Seq<Seq<u8>>) -> int {
    scaled_value(spec_field_at(fields, idxs[feed.lon_col as int] as int))
}

/// The year a passing row binds.
pub open spec fn rec_year(feed: FeedSpec, idxs: Seq<usize>, fields: Seq<Seq<u8>>) -> int {
    digits_value(
        year_text(spec_field_at(fields, idxs[feed.year_col as int] as int), feed.year_from_date),
    )
}

/// The cell a passing row falls in.
pub open spec fn rec_key(
    feed: FeedSpec,
    idxs: Seq<usize>,
    fields: Seq<Seq<u8>>,
    grid_size: int,
) -> RegionKey {
    RegionKey {
        lat_idx: spec_cell_index(rec_lat(feed, idxs, fields), grid_size) as i64,
        lon_idx: spec_cell_index(rec_lon(feed, idxs, fields), grid_size) as i64,
    }
}

/// The species name of a row.
pub open spec fn rec_name(feed: FeedSpec, idxs: Seq<usize>, fields: Seq<Seq<u8>>) -> Seq<u8> {
    spec_field_at(fields, idxs[feed.name_col as int] as int)
}

/// The individual count of a row: the count field, or 1 when unparseable.
pub open spec fn rec_individuals(feed: FeedSpec, idxs: Seq<usize>, fields: Seq<Seq<u8>>) -> u64 {
    let f = spec_field_at(fields, idxs[feed.count_col as int] as int);
    if u64_ok(f) {
        digits_value(f) as u64
    } else {
        1u64
    }
}

/// The streaming aggregation engine for one run over one feed.
pub struct Engine {
    /// The feed this run aggregates.
    pub feed: FeedSpec,
    /// The physical header position of each logical column.
    pub idxs: Vec<usize>,
    /// The grid built so far.
    pub grid: Grid,
    /// Data lines consumed so far.
    pub lines_read: u64,
    /// Lines accepted and folded into the grid.
    pub accepted: u64,
    /// Lines rejected, one counter per check of the chain.
    pub rejects: Vec<u64>,
    /// The cell size, in micro-degrees.
    pub grid_size: i64,
}

impl Engine {
    /// The engine's invariant. In particular the counters partition the
    /// lines read: accepted plus the rejection counters add up exactly.
    pub open spec fn wf(self) -> bool {
        &&& feed_wf(self.feed)
        &&& self.idxs@.len() == self.feed.columns@.len()
        &&& self.grid.wf()
        &&& self.rejects@.len() == self.feed.checks@.len()
        &&& self.accepted as int + sum_seq(self.rejects@) == self.lines_read as int
        &&& grid_obs_le(self.grid, self.accepted as int)
        &&& keys_bounded(self.grid, self.grid_size as int)
        &&& self.grid_size >= 1
    }

    /// Resolves the feed's columns against the header line and starts a run.
    /// Fails with the position of the first feed column the header lacks.
    pub fn new(header_line: &[u8], feed: FeedSpec, grid_size: i64) -> (r: Result<Engine, usize>)
        requires
            feed_wf(feed),
            grid_size >= 1,
        ensures
            ({
                let hf = spec_split(spec_strip_newline(header_line@), TAB);
                match r {
                    Ok(e) => {
                        &&& e.wf()
                        &&& e.feed == feed
                        &&& e.grid_size == grid_size
                        &&& e.lines_read == 0
                        &&& e.accepted == 0
                        &&& e.grid.keys@.len() == 0
                        &&& e.grid.regions@.len() == 0
                        &&& forall|i: int| 0 <= i < e.rejects@.len() ==> #[trigger] e.rejects@[i] == 0
                        &&& forall|k: int|
                            0 <= k < feed.columns@.len() ==> #[trigger] e.idxs@[k] as int
                                == first_index_of(hf, feed.columns@[k]@)
                    },
                    Err(k) => {
                        &&& 0 <= k < feed.columns@.len()
                        &&& !seq_has(hf, feed.columns@[k as int]@)
                        &&& forall|t: int| 0 <= t < k ==> seq_has(hf, #[trigger] feed.columns@[t]@)
                    },
                }
            }),
    {
        let mut line = slice_to_vec(header_line);
        strip_newline(&mut line);
        let hf = split_fields(line.as_slice(), TAB);
        let ghost hfv = views(hf@);
        let mut idxs: Vec<usize> = Vec::new();
        let mut k: usize = 0;
        while k < feed.columns.len()
            invariant
                0 <= k <= feed.columns@.len(),
                idxs@.len() == k,
                hfv == views(hf@),
                hfv == spec_split(spec_strip_newline(header_line@), TAB),
                forall|t: int|
                    0 <= t < k ==> #[trigger] idxs@[t] as int == first_index_of(
                        hfv,
                        feed.columns@[t]@,
                    ),
                forall|t: int| 0 <= t < k ==> seq_has(hfv, #[trigger] feed.columns@[t]@),
            decreases feed.columns@.len() - k,
        {
            match position_of(&hf, feed.columns[k].as_slice()) {
                Some(j) => {
                    proof {
                        crate::agg::lemma_first_index_of(hfv, feed.columns@[k as int]@);
                        assert(seq_has(hfv, feed.columns@[k as int]@)) by {
                            assert(hfv[j as int] == feed.columns@[k as int]@);
                        }
                    }
                    idxs.push(j);
                },
                None => {
                    return Err(k);
                },
            }
            k = k + 1;
        }
        let mut rejects: Vec<u64> = Vec::new();
        let mut c: usize = 0;
        while c < feed.checks.len()
            invariant
                rejects@.len() == c,
                sum_seq(rejects@) == 0,
                forall|i: int| 0 <= i < rejects@.len() ==> #[trigger] rejects@[i] == 0,
                0 <= c <= feed.checks@.len(),
            decreases feed.checks@.len() - c,
        {
            let ghost prev = rejects@;
            rejects.push(0);
            proof {
                assert(rejects@.drop_last() =~= prev);
            }
            c = c + 1;
        }
        Ok(
            Engine {
                feed,
                idxs,
                grid: Grid::new(),
                lines_read: 0,
                accepted: 0,
                rejects,
                grid_size,
            },
        )
    }

    /// Consumes one data line: filters it, counts it as accepted or as
    /// rejected under the first failing check's reason, and folds an
    /// accepted record into the grid. A rejected line changes nothing but
    /// its counter.
    pub fn push_line(&mut self, line: &[u8])
        requires
            old(self).wf(),
            old(self).lines_read < u64::MAX,
        ensures
            final(self).wf(),
            final(self).feed == old(self).feed,
            final(self).idxs == old(self).idxs,
            final(self).grid_size == old(self).grid_size,
            final(self).lines_read == old(self).lines_read + 1,
            ({
                let fields = spec_split(spec_strip_newline(line@), TAB);
                let ff = first_failing(old(self).feed.checks@, fields, old(self).idxs@);
                if ff >= 0 {
                    &&& final(self).accepted == old(self).accepted
                    &&& final(self).rejects@ == old(self).rejects@.update(
                        ff,
                        (old(self).rejects@[ff] + 1) as u64,
                    )
                    &&& final(self).grid == old(self).grid
                } else {
                    &&& final(self).accepted == old(self).accepted + 1
                    &&& final(self).rejects@ == old(self).rejects@
                    &&& grid_folded(
                        old(self).grid,
                        final(self).grid,
                        rec_key(old(self).feed, old(self).idxs@, fields, old(self).grid_size as int),
                        rec_name(old(self).feed, old(self).idxs@, fields),
                        rec_individuals(old(self).feed, old(self).idxs@, fields),
                        (rec_year(old(self).feed, old(self).idxs@, fields)) as u64,
                        old(self).feed.anchor_year,
                    )
                }
            }),
    {
        proof {
            lemma_sum_nonneg(self.rejects@);
        }
        self.lines_read = self.lines_read + 1;
        let mut lv = slice_to_vec(line);
        strip_newline(&mut lv);
        let fields = split_fields(lv.as_slice(), TAB);
        let ghost fv = views(fields@);
        match evaluate(&self.feed.checks, &self.idxs, &fields) {
            Verdict::Reject { reason } => {
                proof {
                    lemma_sum_elem(self.rejects@, reason as int);
                }
                let cur = self.rejects[reason];
                self.rejects[reason] = cur + 1;
                proof {
                    lemma_sum_update(old(self).rejects@, reason as int, (cur + 1) as u64);
                }
            },
            Verdict::Accept { lat, lon, year } => {
                self.accepted = self.accepted + 1;
                let key = RegionKey::from_lat_lon(lat, lon, self.grid_size);
                let name = field_at(&fields, self.idxs[self.feed.name_col]);
                let cf = field_at(&fields, self.idxs[self.feed.count_col]);
                let individuals: u64 = match parse_u64(cf.as_slice()) {
                    Some(v) => v,
                    None => 1,
                };
                proof {
                    let feed = old(self).feed;
                    let kl = choose|k: int|
                        0 <= k < feed.checks@.len() && ((#[trigger] feed.checks@[k]) matches
                            ColumnCheck::BindLatitude { col } && col == feed.lat_col);
                    assert(lat as int == rec_lat(feed, old(self).idxs@, fv));
                    let kn = choose|k: int|
                        0 <= k < feed.checks@.len() && ((#[trigger] feed.checks@[k]) matches
                            ColumnCheck::BindLongitude { col } && col == feed.lon_col);
                    assert(lon as int == rec_lon(feed, old(self).idxs@, fv));
                    let ky = choose|k: int|
                        0 <= k < feed.checks@.len() && ((#[trigger] feed.checks@[k]) matches
                            ColumnCheck::BindYear { col, from_date, .. } && col == feed.year_col
                            && from_date == feed.year_from_date);
                    assert(year as int == rec_year(feed, old(self).idxs@, fv));
                    assert(key == rec_key(feed, old(self).idxs@, fv, old(self).grid_size as int));
                    assert(name@ == rec_name(feed, old(self).idxs@, fv));
                    assert(individuals == rec_individuals(feed, old(self).idxs@, fv));
                }
                let ghost cap = old(self).accepted;
                self.grid.fold(
                    key,
                    name.as_slice(),
                    individuals,
                    year,
                    self.feed.anchor_year,
                    Ghost(cap),
                );
            },
        }
    }
}

/// Builds one required column name.
fn col_name(s: &str) -> (v: Vec<u8>)
    ensures
        v@ == s.spec_bytes(),
{
    slice_to_vec(s.as_bytes())
}

/// The checklist feed: complete checklists of approved records with bounded
/// effort, a ten-year window ending at the 2020 anchor, and coordinates
/// required. The contract pins the whole configuration: the column names,
/// the check chain in order with its literals and bounds, and which columns
/// carry the record's own fields.
pub fn ebd_feed() -> (f: FeedSpec)
    ensures
        feed_wf(f),
        f.anchor_year == 2020,
        f.name_col == 0,
        f.count_col == 1,
        f.lat_col == 2,
        f.lon_col == 3,
        f.year_col == 4,
        f.year_from_date,
        f.columns@.len() == 10,
        f.columns@[0]@ == "SCIENTIFIC NAME".spec_bytes(),
        f.columns@[1]@ == "OBSERVATION COUNT".spec_bytes(),
        f.columns@[2]@ == "LATITUDE".spec_bytes(),
        f.columns@[3]@ == "LONGITUDE".spec_bytes(),
        f.columns@[4]@ == "OBSERVATION DATE".spec_bytes(),
        f.columns@[5]@ == "DURATION MINUTES".spec_bytes(),
        f.columns@[6]@ == "EFFORT DISTANCE KM".spec_bytes(),
        f.columns@[7]@ == "NUMBER OBSERVERS".spec_bytes(),
        f.columns@[8]@ == "ALL SPECIES REPORTED".spec_bytes(),
        f.columns@[9]@ == "APPROVED".spec_bytes(),
        f.checks@.len() == 8,
        f.checks@[0] matches ColumnCheck::RequireLiteral { col, expected } && col == 8
            && expected@ == "1".spec_bytes(),
        f.checks@[1] matches ColumnCheck::RequireLiteral { col, expected } && col == 9
            && expected@ == "1".spec_bytes(),
        f.checks@[2] matches ColumnCheck::MaxInteger { col, default, max } && col == 5 && default
            == 0 && max == 300,
        f.checks@[3] matches ColumnCheck::MaxScaled { col, default, max } && col == 6 && default
            == 0 && max == 5000000,
        f.checks@[4] matches ColumnCheck::MaxInteger { col, default, max } && col == 7 && default
            == 1 && max == 10,
        f.checks@[5] matches ColumnCheck::BindYear { col, from_date, min, max } && col == 4
            && from_date && min == 2010 && max == 2020,
        f.checks@[6] matches ColumnCheck::BindLatitude { col } && col == 2,
        f.checks@[7] matches ColumnCheck::BindLongitude { col } && col == 3,
{
    let mut columns: Vec<Vec<u8>> = Vec::new();
    columns.push(col_name("SCIENTIFIC NAME"));
    columns.push(col_name("OBSERVATION COUNT"));
    columns.push(col_name("LATITUDE"));
    columns.push(col_name("LONGITUDE"));
    columns.push(col_name("OBSERVATION DATE"));
    columns.push(col_name("DURATION MINUTES"));
    columns.push(col_name("EFFORT DISTANCE KM"));
    columns.push(col_name("NUMBER OBSERVERS"));
    columns.push(col_name("ALL SPECIES REPORTED"));
    columns.push(col_name("APPROVED"));
    let mut checks: Vec<ColumnCheck> = Vec::new();
    checks.push(ColumnCheck::RequireLiteral { col: 8, expected: col_name("1") });
    checks.push(ColumnCheck::RequireLiteral { col: 9, expected: col_name("1") });
    checks.push(ColumnCheck::MaxInteger { col: 5, default: 0, max: 300 });
    checks.push(ColumnCheck::MaxScaled { col: 6, default: 0, max: 5000000 });
    checks.push(ColumnCheck::MaxInteger { col: 7, default: 1, max: 10 });
    checks.push(ColumnCheck::BindYear { col: 4, from_date: true, min: 2010, max: 2020 });
    checks.push(ColumnCheck::BindLatitude { col: 2 });
    checks.push(ColumnCheck::BindLongitude { col: 3 });
    let f = FeedSpec {
        columns,
        checks,
        name_col: 0,
        count_col: 1,
        lat_col: 2,
        lon_col: 3,
        year_col: 4,
        year_from_date: true,
        anchor_year: 2020,
    };
    proof {
        assert(f.checks@[6] matches ColumnCheck::BindLatitude { col } && col == f.lat_col);
        assert(f.checks@[7] matches ColumnCheck::BindLongitude { col } && col == f.lon_col);
        assert(f.checks@[5] matches ColumnCheck::BindYear { col, from_date, .. } && col
            == f.year_col && from_date == f.year_from_date);
    }
    f
}

/// The occurrence feed: openly licensed records without location issues;
/// the year is unbounded, and the diversity mask itself ignores years more
/// than its width away from the 2020 anchor. The contract pins the whole
/// configuration: the column names, the check chain in order with its
/// literals, and which columns carry the record's own fields.
pub fn eod_feed() -> (f: FeedSpec)
    ensures
        feed_wf(f),
        f.anchor_year == 2020,
        f.name_col == 0,
        f.count_col == 1,
        f.lat_col == 2,
        f.lon_col == 3,
        f.year_col == 4,
        !f.year_from_date,
        f.columns@.len() == 7,
        f.columns@[0]@ == "verbatimScientificName".spec_bytes(),
        f.columns@[1]@ == "individualCount".spec_bytes(),
        f.columns@[2]@ == "decimalLatitude".spec_bytes(),
        f.columns@[3]@ == "decimalLongitude".spec_bytes(),
        f.columns@[4]@ == "year".spec_bytes(),
        f.columns@[5]@ == "license".spec_bytes(),
        f.columns@[6]@ == "issue".spec_bytes(),
        f.checks@.len() == 5,
        f.checks@[0] matches ColumnCheck::BindLatitude { col } && col == 2,
        f.checks@[1] matches ColumnCheck::BindLongitude { col } && col == 3,
        f.checks@[2] matches ColumnCheck::BindYear { col, from_date, min, max } && col == 4
            && !from_date && min == 0 && max == u64::MAX,
        f.checks@[3] matches ColumnCheck::RequireLiteral { col, expected } && col == 5
            && expected@ == "CC0_1_0".spec_bytes(),
        f.checks@[4] matches ColumnCheck::RequireOneOf { col, allowed } && col == 6
            && allowed@.len() == 2 && allowed@[0]@ == "".spec_bytes() && allowed@[1]@
            == "COORDINATE_ROUNDED".spec_bytes(),
{
    let mut columns: Vec<Vec<u8>> = Vec::new();
    columns.push(col_name("verbatimScientificName"));
    columns.push(col_name("individualCount"));
    columns.push(col_name("decimalLatitude"));
    columns.push(col_name("decimalLongitude"));
    columns.push(col_name("year"));
    columns.push(col_name("license"));
    columns.push(col_name("issue"));
    let mut checks: Vec<ColumnCheck> = Vec::new();
    checks.push(ColumnCheck::BindLatitude { col: 2 });
    checks.push(ColumnCheck::BindLongitude { col: 3 });
    checks.push(ColumnCheck::BindYear { col: 4, from_date: false, min: 0, max: u64::MAX });
    checks.push(ColumnCheck::RequireLiteral { col: 5, expected: col_name("CC0_1_0") });
    let mut allowed: Vec<Vec<u8>> = Vec::new();
    allowed.push(col_name(""));
    allowed.push(col_name("COORDINATE_ROUNDED"));
    checks.push(ColumnCheck::RequireOneOf { col: 6, allowed });
    let f = FeedSpec {
        columns,
        checks,
        name_col: 0,
        count_col: 1,
        lat_col: 2,
        lon_col: 3,
        year_col: 4,
        year_from_date: false,
        anchor_year: 2020,
    };
    proof {
        assert(f.checks@[0] matches ColumnCheck::BindLatitude { col } && col == f.lat_col);
        assert(f.checks@[1] matches ColumnCheck::BindLongitude { col } && col == f.lon_col);
        assert(f.checks@[2] matches ColumnCheck::BindYear { col, from_date, .. } && col
            == f.year_col && from_date == f.year_from_date);
    }
    f
}

} // verus!
