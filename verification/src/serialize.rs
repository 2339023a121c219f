//! The ranked serializer: for each cell, the species that meet both
//! thresholds, ranked by observation count descending, rendered as a compact
//! mapping of quoted name to count, beside the cell's exact centroid text.

use crate::agg::keys_bounded;
use crate::agg::Grid;
use crate::bytes::views;
use crate::counts::Counts;
use crate::engine::Engine;
use crate::grid::spec_centroid2;
use crate::numeric::count_bits_upto;
use crate::render::render_half_millionths;
use crate::render::render_u64;
use crate::render::spec_digits_of;
use crate::render::spec_render_half_millionths;
use vstd::multiset::Multiset;
use vstd::prelude::*;
use vstd::slice::slice_to_vec;

verus! {

pub const QUOTE: u8 = 34;

pub const COMMA: u8 = 44;

pub const LBRACE: u8 = 123;

pub const RBRACE: u8 = 125;

/// Whether one species' accumulator meets both output thresholds.
pub open spec fn meets_thresholds(c: Counts, min_obs: u64, min_years: u32) -> bool {
    c.observations >= min_obs && count_bits_upto(c.years, 64) >= min_years
}

/// The survivors of one cell: each species meeting both thresholds, with its
/// observation count, in store order.
pub open spec fn spec_survivors(
    names: Seq<Seq<u8>>,
    stats: Seq<Counts>,
    min_obs: u64,
    min_years: u32,
) -> Seq<(Seq<u8>, u64)>
    decreases stats.len(),
{
    if stats.len() == 0 || names.len() != stats.len() {
        Seq::empty()
    } else {
        let rest = spec_survivors(names.drop_last(), stats.drop_last(), min_obs, min_years);
        if meets_thresholds(stats.last(), min_obs, min_years) {
            rest.push((names.last(), stats.last().observations))
        } else {
            rest
        }
    }
}

/// Survivor `t` is witnessed by a store position meeting both thresholds.
pub open spec fn survivor_witnessed(
    names: Seq<Seq<u8>>,
    stats: Seq<Counts>,
    min_obs: u64,
    min_years: u32,
    t: int,
) -> bool {
    exists|i: int|
        0 <= i < stats.len() && meets_thresholds(#[trigger] stats[i], min_obs, min_years)
            && spec_survivors(names, stats, min_obs, min_years)[t] == (
        names[i],
        stats[i].observations,
        )
}

/// The threshold law: a species stands among the survivors exactly when its
/// accumulator meets both thresholds, and it stands there with its own
/// observation count.
pub proof fn lemma_survivors_exact(
    names: Seq<Seq<u8>>,
    stats: Seq<Counts>,
    min_obs: u64,
    min_years: u32,
)
    requires
        names.len() == stats.len(),
    ensures
        forall|t: int|
            0 <= t < spec_survivors(names, stats, min_obs, min_years).len()
                ==> #[trigger] survivor_witnessed(names, stats, min_obs, min_years, t),
        forall|i: int|
            0 <= i < stats.len() && meets_thresholds(#[trigger] stats[i], min_obs, min_years)
                ==> spec_survivors(names, stats, min_obs, min_years).contains(
                (names[i], stats[i].observations),
            ),
    decreases stats.len(),
{
    if stats.len() > 0 {
        lemma_survivors_exact(names.drop_last(), stats.drop_last(), min_obs, min_years);
        let s = spec_survivors(names, stats, min_obs, min_years);
        let rest = spec_survivors(names.drop_last(), stats.drop_last(), min_obs, min_years);
        assert forall|t: int| 0 <= t < s.len() implies #[trigger] survivor_witnessed(
            names,
            stats,
            min_obs,
            min_years,
            t,
        ) by {
            if t < rest.len() {
                assert(survivor_witnessed(
                    names.drop_last(),
                    stats.drop_last(),
                    min_obs,
                    min_years,
                    t,
                ));
                let i = choose|i: int|
                    0 <= i < stats.drop_last().len() && meets_thresholds(
                        #[trigger] stats.drop_last()[i],
                        min_obs,
                        min_years,
                    ) && spec_survivors(names.drop_last(), stats.drop_last(), min_obs, min_years)[t]
                        == (names.drop_last()[i], stats.drop_last()[i].observations);
                assert(stats[i] == stats.drop_last()[i] && names[i] == names.drop_last()[i]);
                assert(s[t] == rest[t]);
                assert(meets_thresholds(stats[i], min_obs, min_years) && s[t] == (
                names[i],
                stats[i].observations,
                ));
            } else {
                let i = stats.len() - 1;
                assert(meets_thresholds(stats[i], min_obs, min_years));
                assert(s[t] == (names[i], stats[i].observations));
            }
        }
        assert forall|i: int|
            0 <= i < stats.len() && meets_thresholds(#[trigger] stats[i], min_obs, min_years)
                implies s.contains((names[i], stats[i].observations)) by {
            if i == stats.len() - 1 {
                assert(meets_thresholds(stats.last(), min_obs, min_years));
                assert(s.last() == (names[i], stats[i].observations));
            } else {
                assert(stats.drop_last()[i] == stats[i]);
                assert(rest.contains((names[i], stats[i].observations)));
                let t = choose|t: int|
                    0 <= t < rest.len() && rest[t] == (names[i], stats[i].observations);
                assert(s[t] == (names[i], stats[i].observations));
            }
        }
    }
}

/// Ranked descending by count.
pub open spec fn sorted_desc(s: Seq<(Seq<u8>, u64)>) -> bool {
    forall|i: int, j: int| 0 <= i <= j < s.len() ==> (#[trigger] s[i]).1 >= (#[trigger] s[j]).1
}

/// One rendered entry of the species mapping: quoted name, colon, count.
pub open spec fn spec_entry_text(name: Seq<u8>, count: u64) -> Seq<u8> {
    seq![QUOTE].add(name).add(seq![QUOTE, crate::render::COLON]).add(spec_digits_of(count as int))
}

/// The comma-joined entries of the species mapping.
pub open spec fn spec_entries_text(entries: Seq<(Seq<u8>, u64)>) -> Seq<u8>
    decreases entries.len(),
{
    if entries.len() == 0 {
        Seq::empty()
    } else if entries.len() == 1 {
        spec_entry_text(entries[0].0, entries[0].1)
    } else {
        spec_entries_text(entries.drop_last()).add(seq![COMMA]).add(
            spec_entry_text(entries.last().0, entries.last().1),
        )
    }
}

/// The full species mapping: brace-delimited, comma-joined, quoted names,
/// bare counts, no trailing comma.
pub open spec fn spec_mapping(entries: Seq<(Seq<u8>, u64)>) -> Seq<u8> {
    seq![LBRACE].add(spec_entries_text(entries)).add(seq![RBRACE])
}

/// The views of ranked entries.
pub open spec fn entry_views(entries: Seq<(Vec<u8>, u64)>) -> Seq<(Seq<u8>, u64)> {
    entries.map_values(|e: (Vec<u8>, u64)| (e.0@, e.1))
}

/// Renders the ranked species counts of one cell as its mapping text.
pub fn counts_to_string(entries: &Vec<(Vec<u8>, u64)>) -> (out: Vec<u8>)
    ensures
        out@ == spec_mapping(entry_views(entries@)),
{
    let ghost ev = entry_views(entries@);
    let mut out: Vec<u8> = Vec::new();
    out.push(LBRACE);
    let mut i: usize = 0;
    while i < entries.len()
        invariant
            0 <= i <= entries@.len(),
            ev == entry_views(entries@),
            out@ == seq![LBRACE].add(spec_entries_text(ev.take(i as int))),
        decreases entries@.len() - i,
    {
        if i > 0 {
            out.push(COMMA);
        }
        out.push(QUOTE);
        let mut name = slice_to_vec(entries[i].0.as_slice());
        out.append(&mut name);
        out.push(QUOTE);
        out.push(crate::render::COLON);
        let mut digits = render_u64(entries[i].1);
        out.append(&mut digits);
        proof {
            assert(ev[i as int] == (entries@[i as int].0@, entries@[i as int].1));
            assert(ev.take(i + 1).drop_last() =~= ev.take(i as int));
            assert(ev.take(i + 1).last() == ev[i as int]);
            assert(out@ =~= seq![LBRACE].add(spec_entries_text(ev.take(i + 1))));
        }
        i = i + 1;
    }
    out.push(RBRACE);
    proof {
        assert(ev.take(ev.len() as int) =~= ev);
        assert(out@ =~= spec_mapping(ev));
    }
    out
}

/// Ranks entries by count descending; ties keep no specified order, but the
/// multiset of entries is exactly preserved: nothing is duplicated, nothing
/// is dropped.
pub fn sort_desc(entries: Vec<(Vec<u8>, u64)>) -> (out: Vec<(Vec<u8>, u64)>)
    ensures
        sorted_desc(entry_views(out@)),
        entry_views(out@).to_multiset() == entry_views(entries@).to_multiset(),
{
    broadcast use vstd::seq_lib::group_to_multiset_ensures;

    let ghost whole = entry_views(entries@);
    let mut v = entries;
    let mut out: Vec<(Vec<u8>, u64)> = Vec::new();
    proof {
        assert(entry_views(out@) =~= Seq::<(Seq<u8>, u64)>::empty());
        assert(entry_views(out@).to_multiset() =~= Multiset::<(Seq<u8>, u64)>::empty());
    }
    while v.len() > 0
        invariant
            sorted_desc(entry_views(out@)),
            entry_views(out@).to_multiset().add(entry_views(v@).to_multiset())
                == whole.to_multiset(),
        decreases v@.len(),
    {
        broadcast use vstd::seq_lib::group_to_multiset_ensures;

        let ghost vv = entry_views(v@);
        let x = match v.pop() {
            Some(x) => x,
            None => {
                proof {
                    assert(false);
                }
                return out;
            },
        };
        proof {
            assert(entry_views(v@) =~= vv.drop_last());
            assert(vv.drop_last() =~= vv.remove(vv.len() - 1));
            assert(vv.remove(vv.len() - 1).to_multiset() =~= vv.to_multiset().remove(
                vv.last(),
            ));
            assert(vv.to_multiset().count(vv.last()) > 0) by {
                assert(vv.contains(vv.last()));
            }
        }
        let mut pos: usize = 0;
        while pos < out.len() && out[pos].1 >= x.1
            invariant
                0 <= pos <= out@.len(),
                forall|t: int| 0 <= t < pos ==> (#[trigger] entry_views(out@)[t]).1 >= x.1,
            decreases out@.len() - pos,
        {
            proof {
                assert(entry_views(out@)[pos as int].1 == out@[pos as int].1);
            }
            pos = pos + 1;
        }
        let ghost before = entry_views(out@);
        let ghost xe = (x.0@, x.1);
        out.insert(pos, x);
        proof {
            assert(entry_views(out@) =~= before.insert(pos as int, xe));
            let after = entry_views(out@);
            assert(after.remove(pos as int) =~= before);
            assert(after.remove(pos as int).to_multiset() =~= after.to_multiset().remove(
                after[pos as int],
            ));
            assert(after[pos as int] == xe);
            assert(after.contains(after[pos as int]));
            assert(after.to_multiset() =~= before.to_multiset().insert(xe)) by {
                assert(before.to_multiset() =~= after.to_multiset().remove(xe));
                assert(after.to_multiset().count(xe) > 0);
            }
            assert(vv.to_multiset() =~= entry_views(v@).to_multiset().insert(xe)) by {
                assert(xe == vv.last());
            }
            // ranking is kept around the insertion point
            assert forall|i: int, j: int|
                0 <= i <= j < after.len() implies (#[trigger] after[i]).1 >= (
            #[trigger] after[j]).1 by {
                if pos < before.len() {
                    assert(before[pos as int].1 < x.1);
                }
            }
        }
    }
    proof {
        assert(entry_views(v@) =~= Seq::<(Seq<u8>, u64)>::empty());
        assert(entry_views(v@).to_multiset() =~= Multiset::<(Seq<u8>, u64)>::empty());
        assert(entry_views(out@).to_multiset() =~= whole.to_multiset());
    }
    out
}

/// One output row: a synthetic sequential row number, the cell centroid's
/// exact decimal coordinates, and the ranked species mapping.
pub struct OutputRow {
    pub region_id: u64,
    pub centroid_lat: Vec<u8>,
    pub centroid_lon: Vec<u8>,
    pub species: Vec<u8>,
}

/// What each output row must hold for its cell: the row number in emission
/// order, the exact centroid texts, and a mapping whose entries are exactly
/// the cell's surviving species (as a multiset), ranked by count descending.
pub open spec fn row_ok(
    row: OutputRow,
    r: int,
    g: Grid,
    grid_size: int,
    min_obs: u64,
    min_years: u32,
) -> bool {
    &&& row.region_id == r + 1
    &&& row.centroid_lat@ == spec_render_half_millionths(
        spec_centroid2(g.keys@[r].lat_idx as int, grid_size),
    )
    &&& row.centroid_lon@ == spec_render_half_millionths(
        spec_centroid2(g.keys@[r].lon_idx as int, grid_size),
    )
    &&& exists|es: Seq<(Seq<u8>, u64)>|
        {
            &&& sorted_desc(es)
            &&& es.to_multiset() == spec_survivors(
                views(g.regions@[r].names@),
                g.regions@[r].stats@,
                min_obs,
                min_years,
            ).to_multiset()
            &&& row.species@ == spec_mapping(es)
        }
}

/// Serializes a finished grid: one row per cell, in the grid's first-seen
/// cell order, each holding that cell's thresholded, ranked species mapping.
pub fn serialize_grid(g: &Grid, grid_size: i64, min_obs: u64, min_years: u32) -> (rows: Vec<
    OutputRow,
>)
    requires
        g.wf(),
        keys_bounded(*g, grid_size as int),
        grid_size >= 1,
    ensures
        rows@.len() == g.keys@.len(),
        forall|r: int|
            0 <= r < rows@.len() ==> row_ok(
                #[trigger] rows@[r],
                r,
                *g,
                grid_size as int,
                min_obs,
                min_years,
            ),
{
    let mut rows: Vec<OutputRow> = Vec::new();
    let mut r: usize = 0;
    while r < g.regions.len()
        invariant
            g.wf(),
            keys_bounded(*g, grid_size as int),
            grid_size >= 1,
            0 <= r <= g.regions@.len(),
            rows@.len() == r,
            forall|t: int|
                0 <= t < r ==> row_ok(
                    #[trigger] rows@[t],
                    t,
                    *g,
                    grid_size as int,
                    min_obs,
                    min_years,
                ),
        decreases g.regions@.len() - r,
    {
        let region = &g.regions[r];
        let centroid = g.keys[r].centroid2(grid_size);
        let lat_text = render_half_millionths(centroid.0);
        let lon_text = render_half_millionths(centroid.1);
        let mut survivors: Vec<(Vec<u8>, u64)> = Vec::new();
        let ghost nv = views(region.names@);
        let mut i: usize = 0;
        proof {
            assert(nv.take(0) =~= Seq::<Seq<u8>>::empty());
            assert(region.stats@.take(0) =~= Seq::<Counts>::empty());
        }
        while i < region.stats.len()
            invariant
                region == &g.regions@[r as int],
                g.wf(),
                0 <= r < g.regions@.len(),
                nv == views(region.names@),
                region.names@.len() == region.stats@.len(),
                0 <= i <= region.stats@.len(),
                entry_views(survivors@) == spec_survivors(
                    nv.take(i as int),
                    region.stats@.take(i as int),
                    min_obs,
                    min_years,
                ),
            decreases region.stats@.len() - i,
        {
            let c = region.stats[i];
            proof {
                assert(nv.take(i + 1).drop_last() =~= nv.take(i as int));
                assert(region.stats@.take(i + 1).drop_last() =~= region.stats@.take(i as int));
                assert(nv.take(i + 1).last() == nv[i as int]);
                assert(nv[i as int] == region.names@[i as int]@);
            }
            let keep = c.observations >= min_obs && c.num_years() >= min_years;
            if keep {
                let name = slice_to_vec(region.names[i].as_slice());
                let ghost before = entry_views(survivors@);
                survivors.push((name, c.observations));
                proof {
                    assert(entry_views(survivors@) =~= before.push(
                        (region.names@[i as int]@, c.observations),
                    ));
                }
            }
            i = i + 1;
        }
        proof {
            assert(nv.take(region.stats@.len() as int) =~= nv);
            assert(region.stats@.take(region.stats@.len() as int) =~= region.stats@);
        }
        let ranked = sort_desc(survivors);
        let species = counts_to_string(&ranked);
        let id: u64 = (r as u64) + 1;
        rows.push(OutputRow { region_id: id, centroid_lat: lat_text, centroid_lon: lon_text, species });
        proof {
            assert(row_ok(
                rows@.last(),
                r as int,
                *g,
                grid_size as int,
                min_obs,
                min_years,
            )) by {
                let es = entry_views(ranked@);
                assert(sorted_desc(es) && es.to_multiset() == spec_survivors(
                    views(g.regions@[r as int].names@),
                    g.regions@[r as int].stats@,
                    min_obs,
                    min_years,
                ).to_multiset() && rows@.last().species@ == spec_mapping(es));
            }
        }
        r = r + 1;
    }
    rows
}

/// Serializes the engine's finished grid; see `serialize_grid`.
impl Engine {
    pub fn serialize(&self, min_obs: u64, min_years: u32) -> (rows: Vec<OutputRow>)
        requires
            self.wf(),
        ensures
            rows@.len() == self.grid.keys@.len(),
            forall|r: int|
                0 <= r < rows@.len() ==> row_ok(
                    #[trigger] rows@[r],
                    r,
                    self.grid,
                    self.grid_size as int,
                    min_obs,
                    min_years,
                ),
    {
        serialize_grid(&self.grid, self.grid_size, min_obs, min_years)
    }
}

} // verus!
