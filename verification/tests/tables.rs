use n3gb_rs::csv::{column_mask, data_row, field_at, header_row, position, resolve_source};
use n3gb_rs::error::decimal_string;
use n3gb_rs::{CoordinateSource, CsvHexConfig, N3gbError, SourceIndices};

fn table_strings(items: &[&str]) -> Vec<String> {
    items.iter().map(|s| s.to_string()).collect()
}

#[test]
fn position_is_the_first_match() {
    let headers = table_strings(&["a", "b", "a", "c"]);
    assert_eq!(position(&headers, &"a".to_string()), Some(0));
    assert_eq!(position(&headers, &"b".to_string()), Some(1));
    assert_eq!(position(&headers, &"c".to_string()), Some(3));
    assert_eq!(position(&headers, &"d".to_string()), None);
    assert_eq!(position(&vec![], &"a".to_string()), None);
}

#[test]
fn geometry_column_is_resolved() {
    let headers = table_strings(&["ASSET_ID", "TYPE", "geometry"]);
    let config = CsvHexConfig::new("geometry", 12);
    assert_eq!(resolve_source(&headers, &config.source), Ok(SourceIndices::Geometry(2)));
}

#[test]
fn coordinate_columns_are_resolved() {
    let headers = table_strings(&["StopCode", "Name", "Easting", "Northing"]);
    let config = CsvHexConfig::from_coords("Easting", "Northing", 12);
    assert_eq!(
        resolve_source(&headers, &config.source),
        Ok(SourceIndices::Coordinates { x_idx: 2, y_idx: 3 })
    );
}

#[test]
fn unnamed_columns_are_refused() {
    let headers = table_strings(&["", "x"]);
    assert_eq!(
        resolve_source(&headers, &CoordinateSource::GeometryColumn(String::new())),
        Err(N3gbError::CsvError("Geometry column name cannot be empty".to_string()))
    );
    let source = CoordinateSource::CoordinateColumns {
        x_column: String::new(),
        y_column: String::new(),
    };
    assert_eq!(
        resolve_source(&headers, &source),
        Err(N3gbError::CsvError("X column name cannot be empty".to_string()))
    );
    let source = CoordinateSource::CoordinateColumns {
        x_column: "missing".to_string(),
        y_column: String::new(),
    };
    assert_eq!(
        resolve_source(&headers, &source),
        Err(N3gbError::CsvError("Y column name cannot be empty".to_string()))
    );
}

#[test]
fn absent_columns_are_reported_by_name() {
    let headers = table_strings(&["a", "b"]);
    assert_eq!(
        resolve_source(&headers, &CoordinateSource::GeometryColumn("geom".to_string())),
        Err(N3gbError::CsvError("Geometry column 'geom' not found".to_string()))
    );
    let source = CoordinateSource::CoordinateColumns {
        x_column: "lon".to_string(),
        y_column: "lat".to_string(),
    };
    assert_eq!(
        resolve_source(&headers, &source),
        Err(N3gbError::CsvError("X column 'lon' not found".to_string()))
    );
    let source = CoordinateSource::CoordinateColumns {
        x_column: "a".to_string(),
        y_column: "lat".to_string(),
    };
    assert_eq!(
        resolve_source(&headers, &source),
        Err(N3gbError::CsvError("Y column 'lat' not found".to_string()))
    );
}

#[test]
fn source_and_named_columns_are_left_out() {
    let headers = table_strings(&["StopCode", "Name", "Easting", "Northing", "Name"]);
    let source = SourceIndices::Coordinates { x_idx: 2, y_idx: 3 };
    assert_eq!(
        column_mask(&headers, source, &vec![]),
        vec![true, true, false, false, true]
    );
    assert_eq!(
        column_mask(&headers, source, &table_strings(&["Name", "nothing", "Easting"])),
        vec![true, false, false, false, true]
    );
    assert_eq!(
        column_mask(&headers, SourceIndices::Geometry(0), &table_strings(&["Northing"])),
        vec![false, true, true, false, true]
    );
}

#[test]
fn header_row_starts_with_the_identifier() {
    let headers = table_strings(&["StopCode", "Name", "Easting", "Northing"]);
    let keep = vec![true, true, false, false];
    assert_eq!(
        header_row(&headers, &keep, false),
        table_strings(&["hex_id", "StopCode", "Name"])
    );
    assert_eq!(
        header_row(&headers, &keep, true),
        table_strings(&["hex_id", "hex_geometry", "StopCode", "Name"])
    );
}

#[test]
fn data_row_keeps_the_fields_that_stay() {
    let record = table_strings(&["ABC123", "Temple Meads", "359581", "172304"]);
    let keep = vec![true, true, false, false];
    assert_eq!(
        data_row(&"id".to_string(), None, &record, &keep),
        table_strings(&["id", "ABC123", "Temple Meads"])
    );
    assert_eq!(
        data_row(&"id".to_string(), Some("POLYGON".to_string()), &record, &keep),
        table_strings(&["id", "POLYGON", "ABC123", "Temple Meads"])
    );
    // a row longer than the header keeps what lies beyond it
    let long = table_strings(&["a", "b", "c", "d", "e"]);
    assert_eq!(
        data_row(&"id".to_string(), None, &long, &keep),
        table_strings(&["id", "a", "b", "e"])
    );
    let short = table_strings(&["a"]);
    assert_eq!(data_row(&"id".to_string(), None, &short, &keep), table_strings(&["id", "a"]));
}

#[test]
fn field_beyond_the_row_is_reported() {
    let record = table_strings(&["a", "b"]);
    assert_eq!(field_at(&record, 1, "geometry"), Ok(&"b".to_string()));
    assert_eq!(
        field_at(&record, 2, "geometry"),
        Err(N3gbError::CsvError("Missing geometry column at index 2".to_string()))
    );
    assert_eq!(
        field_at(&record, 17, "X"),
        Err(N3gbError::CsvError("Missing X column at index 17".to_string()))
    );
}

#[test]
fn numbers_are_written_in_decimal() {
    assert_eq!(decimal_string(0), "0");
    assert_eq!(decimal_string(7), "7");
    assert_eq!(decimal_string(10), "10");
    assert_eq!(decimal_string(255), "255");
    assert_eq!(decimal_string(1234567890), "1234567890");
    assert_eq!(decimal_string(u64::MAX), "18446744073709551615");
}

#[test]
fn errors_describe_themselves() {
    assert_eq!(N3gbError::InvalidIdentifierLength.message(), "Invalid identifier length");
    assert_eq!(N3gbError::InvalidChecksum.message(), "Invalid checksum");
    assert_eq!(N3gbError::UnsupportedVersion(2).message(), "Unsupported version: 2");
    assert_eq!(N3gbError::InvalidZoomLevel(16).message(), "Invalid zoom level: 16");
    assert_eq!(N3gbError::InvalidZoomLevel(255).message(), "Invalid zoom level: 255");
    assert_eq!(
        N3gbError::InvalidDimension("Side length must be positive".to_string()).message(),
        "Invalid dimension: Side length must be positive"
    );
    assert_eq!(N3gbError::Base64DecodeError.message(), "Base64 decode error");
    assert_eq!(
        N3gbError::ProjectionError("no grid".to_string()).message(),
        "Projection error: no grid"
    );
    assert_eq!(N3gbError::IoError("disk".to_string()).message(), "IO error: disk");
    assert_eq!(N3gbError::CsvError("row".to_string()).message(), "CSV error: row");
    assert_eq!(
        N3gbError::GeometryParseError("Unsupported geometry type".to_string()).message(),
        "Geometry parse error: Unsupported geometry type"
    );
}
