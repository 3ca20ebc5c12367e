use n3gb_rs::{CoordinateSource, Crs, CsvHexConfig, GeometryFormat};

#[test]
fn test_crs_enum_default() {
    assert_eq!(Crs::default(), Crs::Wgs84);
}

#[test]
fn config_for_a_geometry_column() {
    let config = CsvHexConfig::new("geometry", 12);
    assert!(matches!(&config.source, CoordinateSource::GeometryColumn(c) if c == "geometry"));
    assert!(config.exclude_columns.is_empty());
    assert_eq!(config.zoom_level, 12);
    assert_eq!(config.crs, Crs::Wgs84);
    assert_eq!(config.include_hex_geometry, None);
}

#[test]
fn config_for_coordinate_columns() {
    let config = CsvHexConfig::from_coords("Easting", "Northing", 9);
    assert!(matches!(
        &config.source,
        CoordinateSource::CoordinateColumns { x_column, y_column }
            if x_column == "Easting" && y_column == "Northing"
    ));
    assert!(config.exclude_columns.is_empty());
    assert_eq!(config.zoom_level, 9);
    assert_eq!(config.crs, Crs::Wgs84);
    assert_eq!(config.include_hex_geometry, None);
}

#[test]
fn config_setters_change_one_field_each() {
    let config = CsvHexConfig::new("geometry", 12)
        .exclude(vec!["a".to_string(), "b".to_string()])
        .crs(Crs::Bng)
        .with_hex_geometry(GeometryFormat::Wkt);
    assert!(matches!(&config.source, CoordinateSource::GeometryColumn(c) if c == "geometry"));
    assert_eq!(config.exclude_columns, vec!["a".to_string(), "b".to_string()]);
    assert_eq!(config.zoom_level, 12);
    assert_eq!(config.crs, Crs::Bng);
    assert_eq!(config.include_hex_geometry, Some(GeometryFormat::Wkt));
    let config = config.with_hex_geometry(GeometryFormat::GeoJson).exclude(vec![]);
    assert_eq!(config.include_hex_geometry, Some(GeometryFormat::GeoJson));
    assert!(config.exclude_columns.is_empty());
    assert_eq!(config.crs, Crs::Bng);
}
