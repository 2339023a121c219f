use obsgrid::engine::{ebd_feed, eod_feed, Engine};
use obsgrid::serialize::OutputRow;

fn ebd_header() -> Vec<u8> {
    b"SCIENTIFIC NAME\tOBSERVATION COUNT\tLATITUDE\tLONGITUDE\tOBSERVATION DATE\tDURATION MINUTES\tEFFORT DISTANCE KM\tNUMBER OBSERVERS\tALL SPECIES REPORTED\tAPPROVED\n".to_vec()
}

fn ebd_line(
    name: &str,
    count: &str,
    lat: &str,
    lon: &str,
    date: &str,
    duration: &str,
    distance: &str,
    observers: &str,
    complete: &str,
    approved: &str,
) -> Vec<u8> {
    format!(
        "{}\t{}\t{}\t{}\t{}\t{}\t{}\t{}\t{}\t{}\n",
        name, count, lat, lon, date, duration, distance, observers, complete, approved
    )
    .into_bytes()
}

fn eod_header() -> Vec<u8> {
    b"verbatimScientificName\tindividualCount\tdecimalLatitude\tdecimalLongitude\tyear\tlicense\tissue\n"
        .to_vec()
}

fn eod_line(name: &str, count: &str, lat: &str, lon: &str, year: &str, license: &str, issue: &str) -> Vec<u8> {
    format!("{}\t{}\t{}\t{}\t{}\t{}\t{}\n", name, count, lat, lon, year, license, issue).into_bytes()
}

fn text(v: &[u8]) -> String {
    String::from_utf8(v.to_vec()).unwrap()
}

#[test]
fn one_species_two_years_gives_one_row_with_exact_centroid() {
    let mut e = Engine::new(&ebd_header(), ebd_feed(), 1_000_000).unwrap();
    e.push_line(&ebd_line(
        "Speciesname", "1", "12.3", "45.6", "2015-03-01", "60", "1.0", "2", "1", "1",
    ));
    e.push_line(&ebd_line(
        "Speciesname", "1", "12.3", "45.6", "2016-03-01", "60", "1.0", "2", "1", "1",
    ));
    assert_eq!(e.accepted, 2);
    assert_eq!(e.lines_read, 2);
    let rows: Vec<OutputRow> = e.serialize(1, 1);
    assert_eq!(rows.len(), 1);
    assert_eq!(rows[0].region_id, 1);
    assert_eq!(text(&rows[0].centroid_lat), "12.5");
    assert_eq!(text(&rows[0].centroid_lon), "45.5");
    assert_eq!(text(&rows[0].species), "{\"Speciesname\":2}");
}

#[test]
fn unparseable_latitude_rejected_and_grid_untouched() {
    let feed = ebd_feed();
    let mut e = Engine::new(&ebd_header(), feed, 1_000_000).unwrap();
    e.push_line(&ebd_line(
        "Speciesname", "1", "abc", "45.6", "2015-03-01", "60", "1.0", "2", "1", "1",
    ));
    assert_eq!(e.accepted, 0);
    assert_eq!(e.lines_read, 1);
    // the latitude binder is the seventh check of the checklist feed
    assert_eq!(e.rejects[6], 1);
    assert_eq!(e.rejects.iter().sum::<u64>(), 1);
    let rows = e.serialize(1, 1);
    assert_eq!(rows.len(), 0);
}

#[test]
fn threshold_drops_low_count_species() {
    let mut e = Engine::new(&eod_header(), eod_feed(), 1_000_000).unwrap();
    for _ in 0..5 {
        e.push_line(&eod_line("Alpha one", "1", "10.2", "20.2", "2018", "CC0_1_0", ""));
    }
    for _ in 0..3 {
        e.push_line(&eod_line("Beta two", "1", "10.2", "20.2", "2018", "CC0_1_0", ""));
    }
    let rows = e.serialize(4, 1);
    assert_eq!(rows.len(), 1);
    assert_eq!(text(&rows[0].species), "{\"Alpha one\":5}");
}

#[test]
fn counters_partition_lines_read() {
    let mut e = Engine::new(&ebd_header(), ebd_feed(), 1_000_000).unwrap();
    let lines = vec![
        // accepted
        ebd_line("A b", "1", "1.5", "2.5", "2015-01-01", "60", "1.0", "2", "1", "1"),
        // incomplete checklist
        ebd_line("A b", "1", "1.5", "2.5", "2015-01-01", "60", "1.0", "2", "0", "1"),
        // not approved
        ebd_line("A b", "1", "1.5", "2.5", "2015-01-01", "60", "1.0", "2", "1", "0"),
        // duration too long
        ebd_line("A b", "1", "1.5", "2.5", "2015-01-01", "301", "1.0", "2", "1", "1"),
        // distance too far
        ebd_line("A b", "1", "1.5", "2.5", "2015-01-01", "60", "5.5", "2", "1", "1"),
        // too many observers
        ebd_line("A b", "1", "1.5", "2.5", "2015-01-01", "60", "1.0", "11", "1", "1"),
        // year out of window
        ebd_line("A b", "1", "1.5", "2.5", "2009-01-01", "60", "1.0", "2", "1", "1"),
        // unparseable year
        ebd_line("A b", "1", "1.5", "2.5", "????-01-01", "60", "1.0", "2", "1", "1"),
        // unparseable longitude
        ebd_line("A b", "1", "1.5", "x", "2015-01-01", "60", "1.0", "2", "1", "1"),
        // accepted: unparseable duration and count default instead of rejecting
        ebd_line("A b", "X", "1.5", "2.5", "2015-01-01", "", "", "", "1", "1"),
    ];
    for l in &lines {
        e.push_line(l);
    }
    assert_eq!(e.lines_read, 10);
    assert_eq!(e.accepted, 2);
    assert_eq!(e.accepted + e.rejects.iter().sum::<u64>(), e.lines_read);
    assert_eq!(e.rejects[0], 1); // incomplete checklist
    assert_eq!(e.rejects[1], 1); // not approved
    assert_eq!(e.rejects[2], 1); // duration
    assert_eq!(e.rejects[3], 1); // distance
    assert_eq!(e.rejects[4], 1); // observer count
    assert_eq!(e.rejects[5], 2); // year window and unparseable year
    assert_eq!(e.rejects[6], 0); // latitude
    assert_eq!(e.rejects[7], 1); // longitude
}

#[test]
fn missing_column_fails_fast() {
    let header = b"SCIENTIFIC NAME\tOBSERVATION COUNT\tLATITUDE\n".to_vec();
    let r = Engine::new(&header, ebd_feed(), 1_000_000);
    match r {
        Ok(_) => panic!("a header without the longitude column must be refused"),
        Err(k) => assert_eq!(k, 3),
    }
}

#[test]
fn short_rows_reject_without_aborting() {
    let mut e = Engine::new(&ebd_header(), ebd_feed(), 1_000_000).unwrap();
    e.push_line(b"Speciesname\t1\n");
    assert_eq!(e.lines_read, 1);
    assert_eq!(e.accepted, 0);
    assert_eq!(e.rejects.iter().sum::<u64>(), 1);
}

#[test]
fn eod_license_and_issue_filters() {
    let mut e = Engine::new(&eod_header(), eod_feed(), 1_000_000).unwrap();
    e.push_line(&eod_line("A b", "1", "1.5", "2.5", "2018", "CC_BY_4_0", ""));
    e.push_line(&eod_line("A b", "1", "1.5", "2.5", "2018", "CC0_1_0", "TAXON_MATCH_FUZZY"));
    e.push_line(&eod_line("A b", "1", "1.5", "2.5", "2018", "CC0_1_0", "COORDINATE_ROUNDED"));
    assert_eq!(e.accepted, 1);
    assert_eq!(e.rejects[3], 1);
    assert_eq!(e.rejects[4], 1);
}

#[test]
fn min_years_threshold_uses_distinct_years() {
    let mut e = Engine::new(&eod_header(), eod_feed(), 1_000_000).unwrap();
    e.push_line(&eod_line("A b", "1", "1.5", "2.5", "2018", "CC0_1_0", ""));
    e.push_line(&eod_line("A b", "1", "1.5", "2.5", "2018", "CC0_1_0", ""));
    e.push_line(&eod_line("C d", "1", "1.5", "2.5", "2018", "CC0_1_0", ""));
    e.push_line(&eod_line("C d", "1", "1.5", "2.5", "2019", "CC0_1_0", ""));
    let rows = e.serialize(1, 2);
    assert_eq!(rows.len(), 1);
    assert_eq!(text(&rows[0].species), "{\"C d\":2}");
}

#[test]
fn equal_counts_keep_both_species_once() {
    let mut e = Engine::new(&eod_header(), eod_feed(), 1_000_000).unwrap();
    e.push_line(&eod_line("A b", "1", "1.5", "2.5", "2018", "CC0_1_0", ""));
    e.push_line(&eod_line("C d", "1", "1.5", "2.5", "2018", "CC0_1_0", ""));
    let rows = e.serialize(1, 1);
    assert_eq!(rows.len(), 1);
    let s = text(&rows[0].species);
    // ties carry no specified order, but both species appear exactly once
    assert!(s == "{\"A b\":1,\"C d\":1}" || s == "{\"C d\":1,\"A b\":1}", "got {}", s);
}

#[test]
fn individuals_sum_with_default_for_unparseable_count() {
    let mut e = Engine::new(&eod_header(), eod_feed(), 1_000_000).unwrap();
    e.push_line(&eod_line("A b", "4", "1.5", "2.5", "2018", "CC0_1_0", ""));
    e.push_line(&eod_line("A b", "X", "1.5", "2.5", "2018", "CC0_1_0", ""));
    assert_eq!(e.accepted, 2);
    assert_eq!(e.grid.regions[0].stats[0].individuals, 5);
    assert_eq!(e.grid.regions[0].stats[0].observations, 2);
}

#[test]
fn cells_tile_without_overlap_across_sign() {
    let mut e = Engine::new(&eod_header(), eod_feed(), 1_000_000).unwrap();
    e.push_line(&eod_line("A b", "1", "-0.5", "0.5", "2018", "CC0_1_0", ""));
    e.push_line(&eod_line("A b", "1", "0.5", "0.5", "2018", "CC0_1_0", ""));
    let rows = e.serialize(1, 1);
    assert_eq!(rows.len(), 2);
    let lats: Vec<String> = rows.iter().map(|r| text(&r.centroid_lat)).collect();
    assert!(lats.contains(&"-0.5".to_string()));
    assert!(lats.contains(&"0.5".to_string()));
}

#[test]
fn half_degree_cells_give_quarter_centroids() {
    let mut e = Engine::new(&eod_header(), eod_feed(), 500_000).unwrap();
    e.push_line(&eod_line("A b", "1", "12.3", "45.6", "2018", "CC0_1_0", ""));
    let rows = e.serialize(1, 1);
    assert_eq!(rows.len(), 1);
    assert_eq!(text(&rows[0].centroid_lat), "12.25");
    assert_eq!(text(&rows[0].centroid_lon), "45.75");
}

#[test]
fn header_resolution_survives_reordering_and_extra_columns() {
    let header = b"GLOBAL UNIQUE IDENTIFIER\tAPPROVED\tLONGITUDE\tSCIENTIFIC NAME\tALL SPECIES REPORTED\tOBSERVATION DATE\tLATITUDE\tNUMBER OBSERVERS\tEFFORT DISTANCE KM\tDURATION MINUTES\tOBSERVATION COUNT\tEXTRA\n".to_vec();
    let mut e = Engine::new(&header, ebd_feed(), 1_000_000).unwrap();
    // fields follow the reordered header
    e.push_line(b"id1\t1\t45.6\tSpeciesname\t1\t2015-03-01\t12.3\t2\t1.0\t60\t4\n");
    assert_eq!(e.accepted, 1);
    let rows = e.serialize(1, 1);
    assert_eq!(rows.len(), 1);
    assert_eq!(text(&rows[0].centroid_lat), "12.5");
    assert_eq!(text(&rows[0].species), "{\"Speciesname\":1}");
    assert_eq!(e.grid.regions[0].stats[0].individuals, 4);
}
