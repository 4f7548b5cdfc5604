use vrbag_s102::datum::{
    parse_vertical_datum_code, vertical_datum_code_from_upper, vertical_datum_from_metadata,
    DATUM_LAT, DATUM_MLLW, DATUM_MLW, DATUM_MSL,
};

#[test]
fn datum_abbreviations_in_any_case() {
    assert_eq!(parse_vertical_datum_code("MLLW"), 12);
    assert_eq!(parse_vertical_datum_code("lat"), 10);
    assert_eq!(parse_vertical_datum_code("Mlw"), 11);
    assert_eq!(parse_vertical_datum_code("msl"), 1);
}

#[test]
fn datum_full_names() {
    assert_eq!(parse_vertical_datum_code("Mean Lower Low Water"), DATUM_MLLW);
    assert_eq!(parse_vertical_datum_code("lowest astronomical tide"), DATUM_LAT);
    assert_eq!(parse_vertical_datum_code("mean low water"), DATUM_MLW);
    assert_eq!(parse_vertical_datum_code("Mean Sea Level"), DATUM_MSL);
}

#[test]
fn datum_unknown_defaults_to_mllw() {
    assert_eq!(parse_vertical_datum_code(""), 12);
    assert_eq!(parse_vertical_datum_code("NAVD88"), 12);
}

#[test]
fn datum_precedence_follows_order() {
    // MLLW is tried before LAT, LAT before MLW, MLW before MSL.
    assert_eq!(parse_vertical_datum_code("lat then mllw"), 12);
    assert_eq!(parse_vertical_datum_code("msl or mlw"), 11);
    assert_eq!(parse_vertical_datum_code("msl or lat"), 10);
    // "LAT" also occurs inside longer words.
    assert_eq!(parse_vertical_datum_code("platform msl"), 10);
}

#[test]
fn datum_from_upper_does_not_change_case() {
    assert_eq!(vertical_datum_code_from_upper("lat"), 12);
    assert_eq!(vertical_datum_code_from_upper("LAT"), 10);
    assert_eq!(vertical_datum_code_from_upper("MSL"), 1);
}

#[test]
fn datum_metadata_merge() {
    let none: Vec<String> = vec![];
    assert_eq!(vertical_datum_from_metadata(&none), 12);
    let items = vec!["a=b".to_string(), "verticalDatum=LAT".to_string(), "x".to_string()];
    assert_eq!(vertical_datum_from_metadata(&items), 10);
    let items = vec!["MSL".to_string(), "lat".to_string(), "other".to_string()];
    assert_eq!(vertical_datum_from_metadata(&items), 10);
    // A later default does not replace an earlier specific datum.
    let items = vec!["MSL".to_string(), "MLLW".to_string()];
    assert_eq!(vertical_datum_from_metadata(&items), 1);
    let items = vec!["nothing".to_string(), "mllw".to_string()];
    assert_eq!(vertical_datum_from_metadata(&items), 12);
}

#[test]
fn datum_name_in_any_context() {
    assert_eq!(parse_vertical_datum_code("垂直基準: mllw (最低平均低潮位)"), 12);
    assert_eq!(parse_vertical_datum_code("straße Mean Lower Low Water, LAT"), 12);
    assert_eq!(parse_vertical_datum_code("Höhe lat"), 10);
}

#[test]
fn datum_plain_substring_match() {
    // LATITUDE contains LAT
    assert_eq!(parse_vertical_datum_code("southBoundLatitude=25.0"), 10);
}
