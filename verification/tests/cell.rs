use geo::Centroid;
use n3gb_rs::coverage::steps_between;
use n3gb_rs::{generate_hex_identifier, Coord, Geometry, HexCell, N3gbError};

fn cell_mm(metres: f64) -> i128 {
    (metres * 1000.0).round() as i128
}

fn cell_coord(x: f64, y: f64) -> Coord {
    Coord::new(cell_mm(x), cell_mm(y))
}

fn cell_square(x0: f64, y0: f64, x1: f64, y1: f64) -> geo::Polygon<f64> {
    geo::Polygon::new(
        geo::LineString::from(vec![(x0, y0), (x1, y0), (x1, y1), (x0, y1), (x0, y0)]),
        vec![],
    )
}

fn cell_centroid(polygon: &geo::Polygon<f64>) -> Option<Coord> {
    polygon.centroid().map(|p| cell_coord(p.x(), p.y()))
}

#[test]
fn cell_test_from_bng_tuple() -> Result<(), N3gbError> {
    let cell = HexCell::from_bng(&cell_coord(383640.0, 398260.0), 12)?;

    assert_eq!(cell.zoom_level, 12);
    assert!(!cell.id.is_empty());
    assert!(cell.row > 0);
    assert!(cell.col > 0);
    Ok(())
}

#[test]
fn cell_test_from_bng_point() -> Result<(), N3gbError> {
    let point = Coord { x: cell_mm(383640.0), y: cell_mm(398260.0) };
    let cell = HexCell::from_bng(&point, 12)?;

    assert_eq!(cell.zoom_level, 12);
    assert!(!cell.id.is_empty());
    assert!(cell.row > 0);
    assert!(cell.col > 0);
    Ok(())
}

#[test]
fn cell_test_same_point_same_cell() -> Result<(), N3gbError> {
    // The same point should always return the same cell
    let cell1 = HexCell::from_bng(&cell_coord(383640.0, 398260.0), 10)?;
    let cell2 = HexCell::from_bng(&cell_coord(383640.0, 398260.0), 10)?;

    assert_eq!(cell1.id, cell2.id);
    assert_eq!(cell1.row, cell2.row);
    assert_eq!(cell1.col, cell2.col);

    // A point very close to center should be in the same cell
    let cell3 = HexCell::from_bng(
        &Coord::new(cell1.easting() + cell_mm(1.0), cell1.northing() + cell_mm(1.0)),
        10,
    )?;
    assert_eq!(cell1.id, cell3.id);
    Ok(())
}

#[test]
fn cell_test_tuple_and_point_same_result() -> Result<(), N3gbError> {
    let from_tuple = HexCell::from_bng(&cell_coord(383640.0, 398260.0), 12)?;
    let from_point =
        HexCell::from_bng(&Coord { x: cell_mm(383640.0), y: cell_mm(398260.0) }, 12)?;

    assert_eq!(from_tuple.id, from_point.id);
    assert_eq!(from_tuple.row, from_point.row);
    assert_eq!(from_tuple.col, from_point.col);
    Ok(())
}

#[test]
fn hex_cell_test_from_bng_tuple() -> Result<(), N3gbError> {
    let cell = HexCell::from_bng(&cell_coord(383640.0, 398260.0), 12)?;

    assert_eq!(cell.zoom_level, 12);
    assert!(!cell.id.is_empty());
    assert!(cell.row > 0);
    assert!(cell.col > 0);
    Ok(())
}

#[test]
fn hex_cell_test_from_bng_point() -> Result<(), N3gbError> {
    let point = Coord { x: cell_mm(383640.0), y: cell_mm(398260.0) };
    let cell = HexCell::from_bng(&point, 12)?;

    assert_eq!(cell.zoom_level, 12);
    assert!(!cell.id.is_empty());
    assert!(cell.row > 0);
    assert!(cell.col > 0);
    Ok(())
}

#[test]
fn hex_cell_test_same_point_same_cell() -> Result<(), N3gbError> {
    // The same point should always return the same cell
    let cell1 = HexCell::from_bng(&cell_coord(383640.0, 398260.0), 10)?;
    let cell2 = HexCell::from_bng(&cell_coord(383640.0, 398260.0), 10)?;

    assert_eq!(cell1.id, cell2.id);
    assert_eq!(cell1.row, cell2.row);
    assert_eq!(cell1.col, cell2.col);

    // A point very close to center should be in the same cell
    let cell3 = HexCell::from_bng(
        &Coord::new(cell1.easting() + cell_mm(1.0), cell1.northing() + cell_mm(1.0)),
        10,
    )?;
    assert_eq!(cell1.id, cell3.id);
    Ok(())
}

#[test]
fn hex_cell_test_tuple_and_point_same_result() -> Result<(), N3gbError> {
    let from_tuple = HexCell::from_bng(&cell_coord(383640.0, 398260.0), 12)?;
    let from_point =
        HexCell::from_bng(&Coord { x: cell_mm(383640.0), y: cell_mm(398260.0) }, 12)?;

    assert_eq!(from_tuple.id, from_point.id);
    assert_eq!(from_tuple.row, from_point.row);
    assert_eq!(from_tuple.col, from_point.col);
    Ok(())
}

#[test]
fn test_from_geometry_point_bng() -> Result<(), N3gbError> {
    let geom = Geometry::Point(cell_coord(530000.0, 180000.0));
    let cells = HexCell::from_geometry(&geom, 12)?;

    assert_eq!(cells.len(), 1);
    assert_eq!(cells[0].zoom_level, 12);
    assert!(!cells[0].id.is_empty());
    Ok(())
}

#[test]
fn test_from_geometry_point_matches_from_bng() -> Result<(), N3gbError> {
    let coord = (530000.0, 180000.0);
    let direct = HexCell::from_bng(&cell_coord(coord.0, coord.1), 12)?;
    let via_geom = HexCell::from_geometry(&Geometry::Point(cell_coord(coord.0, coord.1)), 12)?;

    assert_eq!(via_geom.len(), 1);
    assert_eq!(via_geom[0].id, direct.id);
    Ok(())
}

#[test]
fn test_from_geometry_linestring() -> Result<(), N3gbError> {
    let line = vec![cell_coord(530000.0, 180000.0), cell_coord(531000.0, 181000.0)];
    let cells = HexCell::from_geometry(&Geometry::LineString(line), 12)?;

    assert!(!cells.is_empty());
    assert!(cells.len() > 1);
    for cell in &cells {
        assert_eq!(cell.zoom_level, 12);
    }
    Ok(())
}

#[test]
fn test_from_geometry_polygon_uses_centroid() -> Result<(), N3gbError> {
    let poly = cell_square(530000.0, 180000.0, 531000.0, 181000.0);
    let cells = HexCell::from_geometry(&Geometry::Polygon { centroid: cell_centroid(&poly) }, 12)?;

    assert_eq!(cells.len(), 1);
    // Centroid should be roughly at (530500, 180500)
    assert!((cells[0].easting() as f64 / 1000.0 - 530500.0).abs() < 100.0);
    assert!((cells[0].northing() as f64 / 1000.0 - 180500.0).abs() < 100.0);
    Ok(())
}

#[test]
fn test_from_geometry_multipoint() -> Result<(), N3gbError> {
    let mp = vec![cell_coord(530000.0, 180000.0), cell_coord(540000.0, 190000.0)];
    let cells = HexCell::from_geometry(&Geometry::MultiPoint(mp), 12)?;

    assert_eq!(cells.len(), 2);
    Ok(())
}

#[test]
fn test_from_geometry_multilinestring() -> Result<(), N3gbError> {
    let mls = vec![
        vec![cell_coord(530000.0, 180000.0), cell_coord(530500.0, 180500.0)],
        vec![cell_coord(540000.0, 190000.0), cell_coord(540500.0, 190500.0)],
    ];
    let cells = HexCell::from_geometry(&Geometry::MultiLineString(mls), 12)?;

    assert!(cells.len() >= 2);
    Ok(())
}

#[test]
fn test_from_geometry_multipolygon() -> Result<(), N3gbError> {
    let first = geo::Polygon::new(
        geo::LineString::from(vec![
            (530000.0, 180000.0),
            (531000.0, 180000.0),
            (531000.0, 181000.0),
            (530000.0, 180000.0),
        ]),
        vec![],
    );
    let second = geo::Polygon::new(
        geo::LineString::from(vec![
            (540000.0, 190000.0),
            (541000.0, 190000.0),
            (541000.0, 191000.0),
            (540000.0, 190000.0),
        ]),
        vec![],
    );
    let centroids = vec![cell_centroid(&first), cell_centroid(&second)];
    let cells = HexCell::from_geometry(&Geometry::MultiPolygon { centroids }, 12)?;

    assert_eq!(cells.len(), 2);
    Ok(())
}

#[test]
fn test_from_geometry_collection() -> Result<(), N3gbError> {
    let gc = vec![
        Geometry::Point(cell_coord(530000.0, 180000.0)),
        Geometry::Point(cell_coord(540000.0, 190000.0)),
    ];
    let cells = HexCell::from_geometry(&Geometry::GeometryCollection(gc), 12)?;

    assert_eq!(cells.len(), 2);
    Ok(())
}

#[test]
fn from_bng_gives_the_expected_cell() {
    let cell = HexCell::from_bng(&Coord::new(383640000, 398260000), 12).unwrap();
    assert_eq!(cell.row, 25548);
    assert_eq!(cell.col, 21313);
    assert_eq!(cell.center, Coord::new(383634000, 398253906));
    assert_eq!(cell.id, "AQAAAAAW3cpQAAAAABe831IMHg");
    assert_eq!(cell.easting(), 383634000);
    assert_eq!(cell.northing(), 398253906);
    assert_eq!(cell, HexCell::at_index(25548, 21313, 12));
    assert_eq!(cell.duplicate(), cell);
}

#[test]
fn from_bng_rejects_a_zoom_level_above_fifteen() {
    assert_eq!(
        HexCell::from_bng(&Coord::new(383640000, 398260000), 16),
        Err(N3gbError::InvalidZoomLevel(16))
    );
}

#[test]
fn new_keeps_its_fields() {
    let cell = HexCell::new("abc".to_string(), Coord::new(1, 2), 3, 4, 5);
    assert_eq!(cell.id, "abc");
    assert_eq!(cell.center, Coord::new(1, 2));
    assert_eq!(cell.zoom_level, 3);
    assert_eq!(cell.row, 4);
    assert_eq!(cell.col, 5);
}

#[test]
fn from_hex_id_restores_a_cell() {
    for zoom in 3..=15u8 {
        let cell = HexCell::from_bng(&Coord::new(383640000, 398260000), zoom).unwrap();
        let restored = HexCell::from_hex_id(&cell.id).unwrap();
        assert_eq!(restored, cell);
    }
}

#[test]
fn center_on_a_tie_is_restored_one_column_over() {
    let cell = HexCell::from_bng(&Coord::new(383640000, 398260000), 2).unwrap();
    assert_eq!((cell.row, cell.col), (1, 0));
    assert_eq!(cell.center, Coord::new(158058000, 273764487));
    let restored = HexCell::from_hex_id(&cell.id).unwrap();
    assert_eq!(restored.id, cell.id);
    assert_eq!(restored.center, cell.center);
    assert_eq!((restored.row, restored.col), (1, -1));
}

#[test]
fn center_below_the_origin_is_restored_at_the_origin() {
    let cell = HexCell::from_bng(&Coord::new(383640000, 398260000), 1).unwrap();
    assert_eq!((cell.row, cell.col), (1, -1));
    assert_eq!(cell.center, Coord::new(-418330000, 724568814));
    let restored = HexCell::from_hex_id(&cell.id).unwrap();
    assert_eq!(restored.id, cell.id);
    assert_eq!(restored.center, Coord::new(0, 724568814));
    assert_eq!((restored.row, restored.col), (1, -1));
}

#[test]
fn from_hex_id_indexes_the_decoded_center() {
    let id = generate_hex_identifier(457996000, 339874000, 10);
    let cell = HexCell::from_hex_id(&id).unwrap();
    assert_eq!(cell.id, id);
    assert_eq!(cell.center, Coord::new(457996000, 339874000));
    assert_eq!(cell.zoom_level, 10);
    assert_eq!((cell.row, cell.col), (3019, 3522));
}

#[test]
fn from_hex_id_passes_on_decoding_errors() {
    assert_eq!(
        HexCell::from_hex_id("not base64!"),
        Err(N3gbError::Base64DecodeError)
    );
    assert_eq!(
        HexCell::from_hex_id("AQAA"),
        Err(N3gbError::InvalidIdentifierLength)
    );
    assert_eq!(
        HexCell::from_hex_id("AQAAAAAW3cpQAAAAABe831IMHw"),
        Err(N3gbError::InvalidChecksum)
    );
    assert_eq!(
        HexCell::from_hex_id(&generate_hex_identifier(1000, 1000, 16)),
        Err(N3gbError::InvalidZoomLevel(16))
    );
}

#[test]
fn from_hex_id_takes_the_largest_stored_coordinates() {
    let cell = HexCell::from_hex_id("Af______________________8A");
    assert_eq!(cell, Err(N3gbError::InvalidZoomLevel(255)));
    let id = generate_hex_identifier(u64::MAX as i128, u64::MAX as i128, 15);
    let cell = HexCell::from_hex_id(&id).unwrap();
    assert_eq!(cell.center, Coord::new(u64::MAX as i128, u64::MAX as i128));
    assert_eq!(cell.col, 18446744073709551);
}

#[test]
fn line_cells_are_listed_once_in_order() {
    let line = vec![Coord::new(0, 0), Coord::new(30000, 0)];
    let cells = HexCell::from_line_string_bng(&line, 12).unwrap();
    let indices: Vec<(i64, i64)> = cells.iter().map(|c| (c.row, c.col)).collect();
    assert_eq!(indices, vec![(0, 0), (0, 1), (0, 2)]);
    assert_eq!(cells[1], HexCell::at_index(0, 1, 12));
}

#[test]
fn long_line_passes_through_many_cells() {
    let line = vec![Coord::new(530000000, 180000000), Coord::new(531000000, 181000000)];
    let cells = HexCell::from_line_string_bng(&line, 12).unwrap();
    assert_eq!(cells.len(), 109);
    assert_eq!((cells[0].row, cells[0].col), (11547, 29443));
    assert_eq!((cells[1].row, cells[1].col), (11547, 29444));
    assert_eq!((cells[2].row, cells[2].col), (11548, 29445));
    assert_eq!((cells[108].row, cells[108].col), (11611, 29499));
    for (i, a) in cells.iter().enumerate() {
        for b in &cells[i + 1..] {
            assert_ne!((a.row, a.col), (b.row, b.col));
            assert_ne!(a.id, b.id);
        }
    }
}

#[test]
fn sampling_twice_gives_the_same_cells() {
    let line = vec![
        Coord::new(530000000, 180000000),
        Coord::new(531000000, 181000000),
        Coord::new(530500000, 181700000),
    ];
    for zoom in [8u8, 10, 12] {
        let first = HexCell::from_line_string_bng(&line, zoom).unwrap();
        let second = HexCell::from_line_string_bng(&line, zoom).unwrap();
        assert!(first.len() > 1);
        assert_eq!(first, second);
    }
}

#[test]
fn line_without_length_gives_the_cell_of_its_start() {
    let line = vec![Coord::new(530000000, 180000000), Coord::new(530000000, 180000000)];
    let cells = HexCell::from_line_string_bng(&line, 12).unwrap();
    assert_eq!(cells.len(), 1);
    assert_eq!((cells[0].row, cells[0].col), (11547, 29443));
}

#[test]
fn line_of_fewer_than_two_positions_gives_no_cells() {
    assert_eq!(HexCell::from_line_string_bng(&vec![], 12), Ok(vec![]));
    assert_eq!(
        HexCell::from_line_string_bng(&vec![Coord::new(530000000, 180000000)], 12),
        Ok(vec![])
    );
}

#[test]
fn line_rejects_a_zoom_level_above_fifteen() {
    let line = vec![Coord::new(0, 0), Coord::new(30000, 0)];
    assert_eq!(
        HexCell::from_line_string_bng(&line, 16),
        Err(N3gbError::InvalidZoomLevel(16))
    );
}

#[test]
fn cell_revisited_by_a_later_segment_is_not_listed_again() {
    let line = vec![Coord::new(0, 0), Coord::new(30000, 0), Coord::new(0, 0)];
    let cells = HexCell::from_line_string_bng(&line, 12).unwrap();
    let indices: Vec<(i64, i64)> = cells.iter().map(|c| (c.row, c.col)).collect();
    assert_eq!(indices, vec![(0, 0), (0, 1), (0, 2)]);
}

#[test]
fn geometry_of_another_kind_is_rejected() {
    assert_eq!(
        HexCell::from_geometry(&Geometry::Unsupported, 12),
        Err(N3gbError::GeometryParseError("Unsupported geometry type".to_string()))
    );
    let gc = Geometry::GeometryCollection(vec![
        Geometry::Point(Coord::new(1, 1)),
        Geometry::Unsupported,
    ]);
    assert_eq!(
        HexCell::from_geometry(&gc, 12),
        Err(N3gbError::GeometryParseError("Unsupported geometry type".to_string()))
    );
}

#[test]
fn polygon_without_centroid_gives_no_cells() {
    assert_eq!(HexCell::from_geometry(&Geometry::Polygon { centroid: None }, 12), Ok(vec![]));
    assert_eq!(HexCell::from_geometry(&Geometry::Polygon { centroid: None }, 99), Ok(vec![]));
    let centroids = vec![None, Some(Coord::new(530000000, 180000000)), None];
    let cells = HexCell::from_geometry(&Geometry::MultiPolygon { centroids }, 12).unwrap();
    assert_eq!(cells.len(), 1);
    assert_eq!((cells[0].row, cells[0].col), (11547, 29443));
}

#[test]
fn geometry_reports_the_first_error() {
    let gc = Geometry::GeometryCollection(vec![
        Geometry::Polygon { centroid: None },
        Geometry::MultiPoint(vec![Coord::new(1, 1)]),
        Geometry::Unsupported,
    ]);
    assert_eq!(HexCell::from_geometry(&gc, 16), Err(N3gbError::InvalidZoomLevel(16)));
    let gc = Geometry::GeometryCollection(vec![
        Geometry::Unsupported,
        Geometry::Point(Coord::new(1, 1)),
    ]);
    assert!(matches!(
        HexCell::from_geometry(&gc, 16),
        Err(N3gbError::GeometryParseError(_))
    ));
}

#[test]
fn nested_collections_keep_the_order_of_their_members() {
    let inner = Geometry::GeometryCollection(vec![
        Geometry::Point(Coord::new(540000000, 190000000)),
        Geometry::LineString(vec![Coord::new(0, 0), Coord::new(30000, 0)]),
    ]);
    let gc = Geometry::GeometryCollection(vec![
        Geometry::Point(Coord::new(530000000, 180000000)),
        inner,
        Geometry::Point(Coord::new(530000000, 180000000)),
    ]);
    let cells = HexCell::from_geometry(&gc, 12).unwrap();
    assert_eq!(cells.len(), 6);
    assert_eq!((cells[0].row, cells[0].col), (11547, 29443));
    assert_eq!((cells[2].row, cells[2].col), (0, 0));
    assert_eq!((cells[4].row, cells[4].col), (0, 2));
    assert_eq!(cells[5], cells[0]);
}

#[test]
fn steps_are_the_length_over_half_a_radius_rounded_up() {
    let origin = Coord::new(0, 0);
    // half a circumradius is 288.675 mm at zoom level 15 and 5196.152 mm at 12
    assert_eq!(steps_between(&origin, &origin, 5), 0);
    assert_eq!(steps_between(&origin, &Coord::new(1, 0), 15), 1);
    assert_eq!(steps_between(&origin, &Coord::new(288, 0), 15), 1);
    assert_eq!(steps_between(&origin, &Coord::new(289, 0), 15), 2);
    assert_eq!(steps_between(&origin, &Coord::new(577, 0), 15), 2);
    assert_eq!(steps_between(&origin, &Coord::new(578, 0), 15), 3);
    assert_eq!(steps_between(&origin, &Coord::new(3, 4), 15), 1);
    assert_eq!(steps_between(&origin, &Coord::new(5196, 0), 12), 1);
    assert_eq!(steps_between(&origin, &Coord::new(5197, 0), 12), 2);
    assert_eq!(steps_between(&origin, &Coord::new(30000, 0), 12), 6);
    assert_eq!(steps_between(&Coord::new(5, 7), &Coord::new(1000005, 1000007), 12), 273);
}

#[test]
fn steps_are_exact_where_the_length_is_not_whole() {
    let origin = Coord::new(0, 0);
    assert_eq!(steps_between(&origin, &Coord::new(-964204841, 883766059), 15), 4530872);
    assert_eq!(steps_between(&origin, &Coord::new(-848028781, -610401287), 15), 3619518);
    assert_eq!(steps_between(&origin, &Coord::new(272002976, 785214146), 15), 2878639);
    assert_eq!(steps_between(&origin, &Coord::new(-890094828, -548008789), 14), 1206970);
    assert_eq!(steps_between(&origin, &Coord::new(-873716853, -741775569), 14), 1323436);
    assert_eq!(steps_between(&origin, &Coord::new(-255412636, 115255468), 15), 970687);
}

#[test]
fn steps_of_the_longest_segments() {
    let limit = n3gb_rs::GEOMETRY_LIMIT;
    let a = Coord::new(-limit, -limit);
    let b = Coord::new(limit, limit);
    assert_eq!(steps_between(&a, &b, 0), 4415105950);
    assert_eq!(steps_between(&b, &a, 0), 4415105950);
    assert_eq!(steps_between(&Coord::new(limit, -limit), &Coord::new(-limit, limit), 15), 9797958971132712);
}

#[test]
fn line_that_returns_to_its_cells_lists_each_once() {
    let mut line = Vec::new();
    for lap in 0..50 {
        line.push(Coord::new(-200000, -200000 + lap));
        line.push(Coord::new(200000, 200000 + lap));
    }
    let once = HexCell::from_line_string_bng(&line[..2].to_vec(), 12).unwrap();
    let many = HexCell::from_line_string_bng(&line, 12).unwrap();
    assert!(once.len() > 10);
    assert_eq!(&many[..once.len()], &once[..]);
    for (i, a) in many.iter().enumerate() {
        for b in &many[i + 1..] {
            assert_ne!((a.row, a.col), (b.row, b.col));
        }
    }
    // rows below zero are odd and even alike
    assert!(many.iter().any(|c| c.row < 0 && c.row % 2 != 0));
}
