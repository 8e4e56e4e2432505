use citydb::cities::{City, CityDb, Direction, LoadError};

fn sample_text() -> String {
    [
        "Country,City,AccentCity,Region,Population,Latitude,Longitude",
        "it,turin,Turin,01,500000,45.07,7.69",
        "fr,paris,Paris,11,2000000,48.85,2.35",
        "xx,nopop,NoPop,00,,0.0,0.0",
        "",
    ]
    .join("\n")
}

#[test]
fn scenario_three_records() {
    let (db, stats) = CityDb::load(Some(sample_text().as_str())).unwrap();
    assert_eq!(stats.accepted, 2);
    assert_eq!(stats.ignored, 1);
    assert_eq!(stats.rejected, 0);
    assert_eq!(db.len(), 2);
    let out = db.sort(vec!["turin/it", "paris/fr", "nopop/xx"], &Direction::Lat);
    assert_eq!(out.len(), 2);
    assert_eq!(out[0].label().as_str(), "Paris");
    assert_eq!(out[1].label().as_str(), "Turin");
    assert_eq!(out[0].lat(), 48_850_000);
    assert_eq!(out[1].lat(), 45_070_000);
}

#[test]
fn fatal_path_source_unavailable() {
    let r = CityDb::load(None);
    assert_eq!(r.unwrap_err(), LoadError::SourceUnavailable);
}

#[test]
fn unknown_key_tolerated() {
    let (db, _) = CityDb::load(Some(sample_text().as_str())).unwrap();
    let out = db.sort(vec!["doesnotexist/xx"], &Direction::Lat);
    assert_eq!(out.len(), 0);
}

#[test]
fn empty_query_yields_empty_result() {
    let (db, _) = CityDb::load(Some(sample_text().as_str())).unwrap();
    let out = db.sort(vec![], &Direction::Lat);
    assert_eq!(out.len(), 0);
}

#[test]
fn idempotent_load() {
    let text = sample_text();
    let (db1, stats1) = CityDb::load(Some(text.as_str())).unwrap();
    let (db2, stats2) = CityDb::load(Some(text.as_str())).unwrap();
    assert_eq!(stats1, stats2);
    assert_eq!(db1.len(), db2.len());
    for key in ["turin/it", "paris/fr", "nopop/xx"] {
        assert_eq!(db1.get(key), db2.get(key));
    }
}

#[test]
fn filter_invariant_no_population_never_stored() {
    let (db, stats) = CityDb::load(Some(sample_text().as_str())).unwrap();
    assert!(db.get("nopop/xx").is_none());
    assert_eq!(stats.ignored, 1);
    for key in ["turin/it", "paris/fr"] {
        assert!(db.get(key).unwrap().population().is_some());
    }
}

#[test]
fn key_collision_last_write_wins() {
    let text = [
        "Country,City,AccentCity,Region,Population,Latitude,Longitude",
        "it,turin,Turin,01,500000,45.07,7.69",
        "it,turin,Torino,02,900000,45.08,7.70",
        "",
    ]
    .join("\n");
    let (db, stats) = CityDb::load(Some(text.as_str())).unwrap();
    assert_eq!(stats.accepted, 2);
    assert_eq!(db.len(), 1);
    let c = db.get("turin/it").unwrap();
    assert_eq!(c.label().as_str(), "Torino");
    assert_eq!(c.region().as_str(), "02");
    assert_eq!(c.population(), Some(900000));
    assert_eq!(c.lat(), 45_080_000);
    assert_eq!(c.lon(), 7_700_000);
}

#[test]
fn sort_correctness_descending_by_each_axis() {
    let text = [
        "Country,City,AccentCity,Region,Population,Latitude,Longitude",
        "aa,one,One,01,10,10.0,-3.0",
        "bb,two,Two,02,20,-5.5,40.0",
        "cc,three,Three,03,30,62.25,7.5",
        "",
    ]
    .join("\n");
    let (db, _) = CityDb::load(Some(text.as_str())).unwrap();
    let names = vec!["one/aa", "two/bb", "three/cc"];
    let by_lat = db.sort(names.clone(), &Direction::Lat);
    let lats: Vec<i64> = by_lat.iter().map(|c| c.lat()).collect();
    assert_eq!(lats, vec![62_250_000, 10_000_000, -5_500_000]);
    for pair in lats.windows(2) {
        assert!(pair[0] >= pair[1]);
    }
    let by_lon = db.sort(names, &Direction::Lon);
    let lons: Vec<i64> = by_lon.iter().map(|c| c.lon()).collect();
    assert_eq!(lons, vec![40_000_000, 7_500_000, -3_000_000]);
}

#[test]
fn sort_ties_keep_query_order() {
    let text = [
        "Country,City,AccentCity,Region,Population,Latitude,Longitude",
        "aa,able,Able,01,10,10.0,1.0",
        "bb,baker,Baker,02,20,10.0,2.0",
        "",
    ]
    .join("\n");
    let (db, _) = CityDb::load(Some(text.as_str())).unwrap();
    let fwd = db.sort(vec!["able/aa", "baker/bb"], &Direction::Lat);
    assert_eq!(fwd[0].label().as_str(), "Able");
    assert_eq!(fwd[1].label().as_str(), "Baker");
    let rev = db.sort(vec!["baker/bb", "able/aa"], &Direction::Lat);
    assert_eq!(rev[0].label().as_str(), "Baker");
    assert_eq!(rev[1].label().as_str(), "Able");
}

#[test]
fn malformed_rows_counted_and_skipped() {
    let text = [
        "Country,City,AccentCity,Region,Population,Latitude,Longitude",
        "it,turin,Turin,01,500000,45.07,7.69",
        "too,few,fields",
        "it,milan,Milano,09,abc,45.46,9.19",
        "it,rome,Roma,07,2800000,xx.yy,12.48",
        "fr,paris,Paris,11,2000000,48.85,2.35",
        "",
    ]
    .join("\n");
    let (db, stats) = CityDb::load(Some(text.as_str())).unwrap();
    assert_eq!(stats.accepted, 2);
    assert_eq!(stats.rejected, 3);
    assert_eq!(stats.ignored, 0);
    assert_eq!(db.len(), 2);
    assert!(db.get("paris/fr").is_some());
}

#[test]
fn keys_fold_case_at_insert_and_lookup() {
    let text = [
        "Country,City,AccentCity,Region,Population,Latitude,Longitude",
        "IT,Turin,Turin,01,500000,45.07,7.69",
        "",
    ]
    .join("\n");
    let (db, _) = CityDb::load(Some(text.as_str())).unwrap();
    assert!(db.get("turin/it").is_some());
    assert!(db.get("TURIN/IT").is_some());
    assert!(db.get("Turin/It").is_some());
    assert!(db.get("turin/fr").is_none());
    let c = db.get("turin/it").unwrap();
    assert_eq!(c.id(), "Turin/IT");
}

#[test]
fn crlf_line_endings_accepted() {
    let text = "Country,City,AccentCity,Region,Population,Latitude,Longitude\r\nit,turin,Turin,01,500000,45.07,7.69\r\n";
    let (db, stats) = CityDb::load(Some(text)).unwrap();
    assert_eq!(stats.accepted, 1);
    assert_eq!(db.len(), 1);
    assert_eq!(db.get("turin/it").unwrap().lon(), 7_690_000);
}

#[test]
fn empty_text_loads_empty_store() {
    let (db, stats) = CityDb::load(Some("")).unwrap();
    assert_eq!(db.len(), 0);
    assert_eq!((stats.accepted, stats.rejected, stats.ignored), (0, 0, 0));
}

#[test]
fn coordinate_parsing_exact_values() {
    let text = [
        "Country,City,AccentCity,Region,Population,Latitude,Longitude",
        "aa,neg,Neg,01,5,-12.5,-0.25",
        "bb,whole,Whole,02,5,7,180",
        "cc,fine,Fine,03,5,1.2345678,0.000001",
        "",
    ]
    .join("\n");
    let (db, _) = CityDb::load(Some(text.as_str())).unwrap();
    let neg = db.get("neg/aa").unwrap();
    assert_eq!((neg.lat(), neg.lon()), (-12_500_000, -250_000));
    let whole = db.get("whole/bb").unwrap();
    assert_eq!((whole.lat(), whole.lon()), (7_000_000, 180_000_000));
    let fine = db.get("fine/cc").unwrap();
    assert_eq!((fine.lat(), fine.lon()), (1_234_567, 1));
}

#[test]
fn summary_line_exact() {
    let c = City::new(
        "it".to_string(),
        "turin".to_string(),
        "Turin".to_string(),
        "01".to_string(),
        Some(500000),
        45_070_000,
        7_690_000,
    );
    assert_eq!(
        c.summary(),
        "Turin      500000  https://www.openstreetmap.org/#map=8/45.070000/7.690000"
    );
}

#[test]
fn summary_defaults_population_to_zero_and_signs_coordinates() {
    let c = City::new(
        "xx".to_string(),
        "nowhere".to_string(),
        "NowhereTownship".to_string(),
        "00".to_string(),
        None,
        -3_500_000,
        0,
    );
    assert_eq!(
        c.summary(),
        "NowhereTownship 0  https://www.openstreetmap.org/#map=8/-3.500000/0.000000"
    );
}

#[test]
fn getters_report_constructed_fields() {
    let c = City::new(
        "fr".to_string(),
        "paris".to_string(),
        "Paris".to_string(),
        "11".to_string(),
        Some(2_000_000),
        48_850_000,
        2_350_000,
    );
    assert_eq!(c.country().as_str(), "fr");
    assert_eq!(c.city_name().as_str(), "paris");
    assert_eq!(c.label().as_str(), "Paris");
    assert_eq!(c.region().as_str(), "11");
    assert_eq!(c.population(), Some(2_000_000));
    assert_eq!(c.id(), "paris/fr");
    assert_eq!((c.lat(), c.lon()), (48_850_000, 2_350_000));
    let d = c.clone();
    assert_eq!(c, d);
}

#[test]
fn population_overflow_rejects_row() {
    let text = [
        "Country,City,AccentCity,Region,Population,Latitude,Longitude",
        "aa,huge,Huge,01,99999999999999999999999999,1.0,1.0",
        "",
    ]
    .join("\n");
    let (db, stats) = CityDb::load(Some(text.as_str())).unwrap();
    assert_eq!(stats.rejected, 1);
    assert_eq!(db.len(), 0);
}
