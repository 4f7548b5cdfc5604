use vrbag_s102::crs::{authority_epsg_from_wkt, crs_label, export_epsg, horizontal_epsg};

const COMPOUND: &str = "COMPD_CS[\"NAD83 / UTM zone 19N + MLLW\",PROJCS[\"NAD83 / UTM zone 19N\",GEOGCS[\"NAD83\",AUTHORITY[\"EPSG\",\"4269\"]],AUTHORITY[\"EPSG\",\"26919\"]],VERT_CS[\"MLLW depth\",AUTHORITY[\"EPSG\",\"5866\"]]]";

#[test]
fn wkt_takes_last_horizontal_authority() {
    assert_eq!(authority_epsg_from_wkt(COMPOUND), 26919);
}

#[test]
fn wkt_geographic_only() {
    assert_eq!(authority_epsg_from_wkt("GEOGCS[\"WGS 84\",AUTHORITY[\"EPSG\",\"4326\"]]"), 4326);
}

#[test]
fn wkt_vertical_authority_ignored() {
    assert_eq!(authority_epsg_from_wkt("VERT_CS[\"MLLW\",AUTHORITY[\"EPSG\",\"5866\"]]"), 0);
    // Digits are not looked for past the vertical block.
    assert_eq!(
        authority_epsg_from_wkt("PROJCS[\"x\",AUTHORITY[\"EPSG\"]]VERT_CS[\"v\",AUTHORITY[\"EPSG\",\"5703\"]]"),
        0
    );
}

#[test]
fn wkt_without_authority_or_digits() {
    assert_eq!(authority_epsg_from_wkt(""), 0);
    assert_eq!(authority_epsg_from_wkt("LOCAL_CS[\"grid\"]"), 0);
    assert_eq!(authority_epsg_from_wkt("AUTHORITY[\"EPSG\",\"\"]"), 0);
}

#[test]
fn wkt_code_that_overflows_is_zero() {
    assert_eq!(authority_epsg_from_wkt("AUTHORITY[\"EPSG\",\"99999999999\"]"), 0);
    assert_eq!(authority_epsg_from_wkt("AUTHORITY[\"EPSG\",\"2147483647\"]"), 2147483647);
    assert_eq!(authority_epsg_from_wkt("AUTHORITY[\"EPSG\",\"2147483648\"]"), 0);
}

#[test]
fn horizontal_prefers_identified_code() {
    assert_eq!(horizontal_epsg("", Some(4326)), 0);
    assert_eq!(horizontal_epsg(COMPOUND, Some(32619)), 32619);
    assert_eq!(horizontal_epsg(COMPOUND, Some(0)), 26919);
    assert_eq!(horizontal_epsg(COMPOUND, Some(-5)), 26919);
    assert_eq!(horizontal_epsg(COMPOUND, None), 26919);
}

#[test]
fn export_epsg_fallback() {
    assert_eq!(export_epsg(26919, 3826), 26919);
    assert_eq!(export_epsg(0, 3826), 3826);
    assert_eq!(export_epsg(-1, 3826), 3826);
}

#[test]
fn crs_labels() {
    assert_eq!(crs_label("", Some(Some("x".to_string()))), "未設定投影坐標系");
    assert_eq!(crs_label(COMPOUND, Some(Some("NAD83".to_string()))), "NAD83");
    assert_eq!(crs_label(COMPOUND, Some(None)), "未知投影座標系");
    assert_eq!(crs_label("garbage", None), "無法解析 WKT 坐標系");
}
