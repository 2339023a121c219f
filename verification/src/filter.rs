//! The record filter: an ordered chain of independent column checks. The
//! first failing check decides the rejection reason; a record passing every
//! check is accepted with its keying fields (latitude, longitude, year)
//! bound. A field missing from a short row reads as empty and fails or
//! defaults like any other unparseable field, so dirty rows never abort a
//! run.

use crate::bytes::bytes_eq;
use crate::bytes::views;
use crate::parse::all_digits;
use crate::parse::digits_value;
use crate::parse::parse_scaled;
use crate::parse::parse_u64;
use crate::parse::scaled_ok;
use crate::parse::scaled_value;
use crate::agg::first_index_of;
use crate::agg::lemma_first_index_at;
use crate::agg::seq_has;
use vstd::prelude::*;
use vstd::slice::slice_subrange;
use vstd::slice::slice_to_vec;

verus! {

/// One data-quality predicate on one column.
#[allow(inconsistent_fields)]
pub enum ColumnCheck {
    /// The field must equal the expected bytes.
    RequireLiteral { col: usize, expected: Vec<u8> },
    /// The field must be one of the allowed values.
    RequireOneOf { col: usize, allowed: Vec<Vec<u8>> },
    /// The field, read as an unsigned integer with a default when
    /// unparseable, must not exceed `max`.
    MaxInteger { col: usize, default: u64, max: u64 },
    /// The field, read as a fixed-point decimal with a default when
    /// unparseable, must not exceed `max` millionths.
    MaxScaled { col: usize, default: i64, max: i64 },
    /// The field must yield a year inside `[min, max)`; `from_date` reads
    /// the year from the first four bytes of a `YYYY-MM-DD` date.
    BindYear { col: usize, from_date: bool, min: u64, max: u64 },
    /// The field must parse as a latitude in micro-degrees.
    BindLatitude { col: usize },
    /// The field must parse as a longitude in micro-degrees.
    BindLongitude { col: usize },
}

/// The outcome for one data line: accepted with its keying fields bound, or
/// rejected with the position of the first failing check as the reason.
pub enum Verdict {
    Accept { lat: i64, lon: i64, year: u64 },
    Reject { reason: usize },
}

pub open spec fn is_bind_lat(c: ColumnCheck) -> bool {
    c matches ColumnCheck::BindLatitude { .. }
}

pub open spec fn is_bind_lon(c: ColumnCheck) -> bool {
    c matches ColumnCheck::BindLongitude { .. }
}

pub open spec fn is_bind_year(c: ColumnCheck) -> bool {
    c matches ColumnCheck::BindYear { .. }
}

/// Each keying field is bound by at most one check of the chain.
pub open spec fn binders_unique(checks: Seq<ColumnCheck>) -> bool {
    forall|k1: int, k2: int|
        0 <= k1 < k2 < checks.len() ==> {
            &&& !(is_bind_lat(#[trigger] checks[k1]) && is_bind_lat(#[trigger] checks[k2]))
            &&& !(is_bind_lon(checks[k1]) && is_bind_lon(checks[k2]))
            &&& !(is_bind_year(checks[k1]) && is_bind_year(checks[k2]))
        }
}

/// The logical column a check reads.
pub open spec fn check_col(c: ColumnCheck) -> usize {
    match c {
        ColumnCheck::RequireLiteral { col, .. } => col,
        ColumnCheck::RequireOneOf { col, .. } => col,
        ColumnCheck::MaxInteger { col, .. } => col,
        ColumnCheck::MaxScaled { col, .. } => col,
        ColumnCheck::BindYear { col, .. } => col,
        ColumnCheck::BindLatitude { col } => col,
        ColumnCheck::BindLongitude { col } => col,
    }
}

/// The field at a position; a position past the row's end reads as empty.
pub open spec fn spec_field_at(fields: Seq<Seq<u8>>, col: int) -> Seq<u8> {
    if 0 <= col < fields.len() {
        fields[col]
    } else {
        Seq::empty()
    }
}

/// Whether a field is a parseable unsigned integer.
pub open spec fn u64_ok(f: Seq<u8>) -> bool {
    f.len() >= 1 && all_digits(f) && digits_value(f) <= u64::MAX
}

/// A field as an unsigned integer, with a default when unparseable.
pub open spec fn u64_or(f: Seq<u8>, d: u64) -> int {
    if u64_ok(f) {
        digits_value(f)
    } else {
        d as int
    }
}

/// A field as a fixed-point decimal, with a default when unparseable.
pub open spec fn scaled_or(f: Seq<u8>, d: i64) -> int {
    if scaled_ok(f) {
        scaled_value(f)
    } else {
        d as int
    }
}

/// The year text of a field: the whole field, or the leading four bytes of
/// a date.
pub open spec fn year_text(f: Seq<u8>, from_date: bool) -> Seq<u8> {
    if from_date && f.len() >= 4 {
        f.subrange(0, 4)
    } else {
        f
    }
}

/// Whether the field yields a year within the accepted window.
pub open spec fn year_field_ok(f: Seq<u8>, from_date: bool, min: u64, max: u64) -> bool {
    let t = year_text(f, from_date);
    u64_ok(t) && min <= digits_value(t) < max
}

/// Whether one check passes on a row, with `idxs` giving each logical
/// column's physical position.
pub open spec fn check_passes(c: ColumnCheck, fields: Seq<Seq<u8>>, idxs: Seq<usize>) -> bool {
    match c {
        ColumnCheck::RequireLiteral { col, expected } => spec_field_at(
            fields,
            idxs[col as int] as int,
        ) == expected@,
        ColumnCheck::RequireOneOf { col, allowed } => seq_has(
            views(allowed@),
            spec_field_at(fields, idxs[col as int] as int),
        ),
        ColumnCheck::MaxInteger { col, default, max } => u64_or(
            spec_field_at(fields, idxs[col as int] as int),
            default,
        ) <= max,
        ColumnCheck::MaxScaled { col, default, max } => scaled_or(
            spec_field_at(fields, idxs[col as int] as int),
            default,
        ) <= max,
        ColumnCheck::BindYear { col, from_date, min, max } => year_field_ok(
            spec_field_at(fields, idxs[col as int] as int),
            from_date,
            min,
            max,
        ),
        ColumnCheck::BindLatitude { col } => scaled_ok(
            spec_field_at(fields, idxs[col as int] as int),
        ),
        ColumnCheck::BindLongitude { col } => scaled_ok(
            spec_field_at(fields, idxs[col as int] as int),
        ),
    }
}

/// The position of the first failing check, or -1 when all pass.
pub open spec fn first_failing(checks: Seq<ColumnCheck>, fields: Seq<Seq<u8>>, idxs: Seq<usize>) -> int
    decreases checks.len(),
{
    if checks.len() == 0 {
        -1
    } else if !check_passes(checks[0], fields, idxs) {
        0
    } else {
        let r = first_failing(checks.drop_first(), fields, idxs);
        if r < 0 {
            -1
        } else {
            r + 1
        }
    }
}

/// Pins the first failure down: if nothing fails before `j`, the first
/// failure is `j` when `j` fails, and absent when `j` runs past the end.
pub proof fn lemma_first_failing_at(
    checks: Seq<ColumnCheck>,
    fields: Seq<Seq<u8>>,
    idxs: Seq<usize>,
    j: int,
)
    requires
        0 <= j <= checks.len(),
        forall|t: int| 0 <= t < j ==> check_passes(#[trigger] checks[t], fields, idxs),
    ensures
        j == checks.len() ==> first_failing(checks, fields, idxs) == -1,
        j < checks.len() && !check_passes(checks[j], fields, idxs) ==> first_failing(
            checks,
            fields,
            idxs,
        ) == j,
    decreases j,
{
    if j > 0 {
        lemma_first_failing_at(checks.drop_first(), fields, idxs, j - 1);
        assert(check_passes(checks[0], fields, idxs));
        assert(forall|t: int|
            0 <= t < j - 1 ==> check_passes(#[trigger] checks.drop_first()[t], fields, idxs));
    }
}

/// Reads the field at a physical position; a position past the row's end
/// reads as empty.
pub fn field_at(fields: &Vec<Vec<u8>>, col: usize) -> (f: Vec<u8>)
    ensures
        f@ == spec_field_at(views(fields@), col as int),
{
    if col < fields.len() {
        proof {
            assert(views(fields@)[col as int] == fields@[col as int]@);
        }
        slice_to_vec(fields[col].as_slice())
    } else {
        Vec::new()
    }
}

/// Evaluates the check chain on one row: the first failing check's position
/// becomes the rejection reason, and a fully passing row is accepted with
/// every bound field carrying the value its own check parsed.
pub fn evaluate(checks: &Vec<ColumnCheck>, idxs: &Vec<usize>, fields: &Vec<Vec<u8>>) -> (v:
    Verdict)
    requires
        forall|k: int| 0 <= k < checks@.len() ==> check_col(#[trigger] checks@[k]) < idxs@.len(),
        binders_unique(checks@),
    ensures
        ({
            let ff = first_failing(checks@, views(fields@), idxs@);
            match v {
                Verdict::Reject { reason } => ff == reason && 0 <= ff < checks@.len(),
                Verdict::Accept { lat, lon, year } => {
                    &&& ff == -1
                    &&& forall|k: int|
                        0 <= k < checks@.len() ==> match #[trigger] checks@[k] {
                            ColumnCheck::BindLatitude { col } => lat == scaled_value(
                                spec_field_at(views(fields@), idxs@[col as int] as int),
                            ),
                            ColumnCheck::BindLongitude { col } => lon == scaled_value(
                                spec_field_at(views(fields@), idxs@[col as int] as int),
                            ),
                            ColumnCheck::BindYear { col, from_date, .. } => year == digits_value(
                                year_text(
                                    spec_field_at(views(fields@), idxs@[col as int] as int),
                                    from_date,
                                ),
                            ),
                            _ => true,
                        }
                },
            }
        }),
{
    let ghost vf = views(fields@);
    let mut lat_v: i64 = 0;
    let mut lon_v: i64 = 0;
    let mut year_v: u64 = 0;
    let mut i: usize = 0;
    while i < checks.len()
        invariant
            0 <= i <= checks@.len(),
            vf == views(fields@),
            forall|k: int| 0 <= k < checks@.len() ==> check_col(#[trigger] checks@[k]) < idxs@.len(),
            binders_unique(checks@),
            forall|t: int| 0 <= t < i ==> check_passes(#[trigger] checks@[t], vf, idxs@),
            forall|k: int|
                0 <= k < i ==> match #[trigger] checks@[k] {
                    ColumnCheck::BindLatitude { col } => lat_v == scaled_value(
                        spec_field_at(vf, idxs@[col as int] as int),
                    ),
                    ColumnCheck::BindLongitude { col } => lon_v == scaled_value(
                        spec_field_at(vf, idxs@[col as int] as int),
                    ),
                    ColumnCheck::BindYear { col, from_date, .. } => year_v == digits_value(
                        year_text(spec_field_at(vf, idxs@[col as int] as int), from_date),
                    ),
                    _ => true,
                },
        decreases checks@.len() - i,
    {
        let passed: bool = match &checks[i] {
            ColumnCheck::RequireLiteral { col, expected } => {
                let f = field_at(fields, idxs[*col]);
                bytes_eq(f.as_slice(), expected.as_slice())
            },
            ColumnCheck::RequireOneOf { col, allowed } => {
                let f = field_at(fields, idxs[*col]);
                let mut hit = false;
                let mut a: usize = 0;
                while a < allowed.len()
                    invariant
                        0 <= a <= allowed@.len(),
                        f@ == spec_field_at(vf, idxs@[*col as int] as int),
                        hit <==> exists|t: int| 0 <= t < a && views(allowed@)[t] == f@,
                    decreases allowed@.len() - a,
                {
                    if bytes_eq(allowed[a].as_slice(), f.as_slice()) {
                        proof {
                            assert(views(allowed@)[a as int] == f@);
                        }
                        hit = true;
                    }
                    a = a + 1;
                }
                proof {
                    if hit {
                        assert(seq_has(views(allowed@), f@));
                    } else {
                        if seq_has(views(allowed@), f@) {
                            let t = choose|t: int|
                                0 <= t < views(allowed@).len() && views(allowed@)[t] == f@;
                            assert(false);
                        }
                    }
                }
                hit
            },
            ColumnCheck::MaxInteger { col, default, max } => {
                let f = field_at(fields, idxs[*col]);
                let v = match parse_u64(f.as_slice()) {
                    Some(v) => v,
                    None => *default,
                };
                v <= *max
            },
            ColumnCheck::MaxScaled { col, default, max } => {
                let f = field_at(fields, idxs[*col]);
                let v = match parse_scaled(f.as_slice()) {
                    Some(v) => v,
                    None => *default,
                };
                v <= *max
            },
            ColumnCheck::BindYear { col, from_date, min, max } => {
                let f = field_at(fields, idxs[*col]);
                let t: &[u8] = if *from_date && f.len() >= 4 {
                    slice_subrange(f.as_slice(), 0, 4)
                } else {
                    f.as_slice()
                };
                proof {
                    assert(t@ == year_text(spec_field_at(vf, idxs@[*col as int] as int), *from_date));
                }
                match parse_u64(t) {
                    Some(y) => if *min <= y && y < *max {
                        year_v = y;
                        true
                    } else {
                        false
                    },
                    None => false,
                }
            },
            ColumnCheck::BindLatitude { col } => {
                let f = field_at(fields, idxs[*col]);
                match parse_scaled(f.as_slice()) {
                    Some(v) => {
                        lat_v = v;
                        true
                    },
                    None => false,
                }
            },
            ColumnCheck::BindLongitude { col } => {
                let f = field_at(fields, idxs[*col]);
                match parse_scaled(f.as_slice()) {
                    Some(v) => {
                        lon_v = v;
                        true
                    },
                    None => false,
                }
            },
        };
        if !passed {
            proof {
                lemma_first_failing_at(checks@, vf, idxs@, i as int);
            }
            return Verdict::Reject { reason: i };
        }
        i = i + 1;
    }
    proof {
        lemma_first_failing_at(checks@, vf, idxs@, checks@.len() as int);
    }
    Verdict::Accept { lat: lat_v, lon: lon_v, year: year_v }
}

/// The physical position of a column name in the header's fields: its first
/// occurrence, if it occurs at all.
pub fn position_of(fields: &Vec<Vec<u8>>, name: &[u8]) -> (r: Option<usize>)
    ensures
        match r {
            Some(j) => j as int == first_index_of(views(fields@), name@),
            None => !seq_has(views(fields@), name@),
        },
{
    let mut j: usize = 0;
    while j < fields.len()
        invariant
            0 <= j <= fields@.len(),
            forall|t: int| 0 <= t < j ==> views(fields@)[t] != name@,
        decreases fields@.len() - j,
    {
        if bytes_eq(fields[j].as_slice(), name) {
            proof {
                assert(views(fields@)[j as int] == name@);
                lemma_first_index_at(views(fields@), name@, j as int);
            }
            return Some(j);
        }
        proof {
            assert(views(fields@)[j as int] == fields@[j as int]@);
        }
        j = j + 1;
    }
    proof {
        if seq_has(views(fields@), name@) {
            let t = choose|t: int|
                0 <= t < views(fields@).len() && views(fields@)[t] == name@;
            assert(false);
        }
    }
    None
}

} // verus!
