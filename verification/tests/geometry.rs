use n3gb_rs::geometry::integer_sqrt;
use n3gb_rs::{
    create_hexagon, create_hexagon_from_point, generate_hex_identifier, Coord, HexCell, Polygon,
    Rect, COORD_LIMIT,
};

#[test]
fn test_create_hexagon() {
    let hex = create_hexagon(100000, 100000, 10000);
    let exterior = &hex.exterior;
    assert_eq!(exterior.len(), 7); // 6 vertices + 1 to close
    assert_eq!(exterior[0], exterior[6]); // First and last are same
}

#[test]
fn test_create_hexagon_from_point() {
    let center = Coord { x: 100000, y: 100000 };
    let hex = create_hexagon_from_point(&center, 10000);
    let exterior = &hex.exterior;
    assert_eq!(exterior.len(), 7);
}

#[test]
fn hexagon_vertices_start_at_thirty_degrees() {
    let hex = create_hexagon(100000, 100000, 10000);
    let expected = vec![
        Coord::new(108660, 105000),
        Coord::new(100000, 110000),
        Coord::new(91340, 105000),
        Coord::new(91340, 95000),
        Coord::new(100000, 90000),
        Coord::new(108660, 95000),
        Coord::new(108660, 105000),
    ];
    assert_eq!(hex.exterior, expected);
    assert!(hex.interiors.is_empty());
    for (i, c) in hex.exterior.iter().take(6).enumerate() {
        let angle = (30.0 + 60.0 * i as f64).to_radians();
        assert!((c.x as f64 - (100000.0 + 10000.0 * angle.cos())).abs() <= 0.5);
        assert!((c.y as f64 - (100000.0 + 10000.0 * angle.sin())).abs() <= 0.5);
    }
}

#[test]
fn hexagon_of_no_size_is_a_point() {
    let hex = create_hexagon(5, -7, 0);
    assert_eq!(hex.exterior, vec![Coord::new(5, -7); 7]);
}

#[test]
fn hexagon_at_the_limits() {
    let limit = n3gb_rs::GEOMETRY_LIMIT;
    let hex = create_hexagon(2 * limit, -2 * limit, limit as u64);
    assert_eq!(hex.exterior.len(), 7);
    assert_eq!(hex.exterior[1], Coord::new(2 * limit, -limit));
    assert_eq!(hex.exterior[0].x, 2 * limit + 866025403784438647);
}

#[test]
fn cell_outline_uses_the_radius_of_the_zoom_level() {
    let cell = HexCell::from_bng(&Coord::new(457500000, 340000000), 10).unwrap();
    let polygon = cell.to_polygon();
    let expected = vec![
        Coord::new(457535000, 340039102),
        Coord::new(457470000, 340076630),
        Coord::new(457405000, 340039102),
        Coord::new(457405000, 339964046),
        Coord::new(457470000, 339926518),
        Coord::new(457535000, 339964046),
        Coord::new(457535000, 340039102),
    ];
    assert_eq!(polygon.exterior, expected);
}

#[test]
fn cell_outline_has_seven_positions_at_every_zoom_level() {
    for zoom in 0..=15u8 {
        let cell = HexCell::from_bng(&Coord::new(383640000, 398260000), zoom).unwrap();
        let polygon = cell.to_polygon();
        assert_eq!(polygon.exterior.len(), 7);
        assert_eq!(polygon.exterior[0], polygon.exterior[6]);
        assert_eq!(polygon.exterior[1].x, cell.easting());
        assert_eq!(polygon.exterior[4].x, cell.easting());
    }
}

#[test]
fn integer_square_roots() {
    assert_eq!(integer_sqrt(0), 0);
    assert_eq!(integer_sqrt(1), 1);
    assert_eq!(integer_sqrt(3), 1);
    assert_eq!(integer_sqrt(4), 2);
    assert_eq!(integer_sqrt(99), 9);
    assert_eq!(integer_sqrt(100), 10);
    assert_eq!(integer_sqrt(u128::MAX), u64::MAX as u128);
    assert_eq!(integer_sqrt(300000000), 17320);
}

#[test]
fn rectangle_orders_its_corners() {
    let r = Rect::new(Coord::new(5, -2), Coord::new(-3, 9));
    assert_eq!(r.min(), Coord::new(-3, -2));
    assert_eq!(r.max(), Coord::new(5, 9));
}

#[test]
fn hexagon_far_from_the_grid() {
    let far = i128::MAX - 10000;
    let hex = create_hexagon(far, -far, 10000);
    assert_eq!(hex.exterior.len(), 7);
    assert_eq!(hex.exterior[0], hex.exterior[6]);
    assert_eq!(hex.exterior[0], Coord::new(far + 8660, -far + 5000));
    assert_eq!(hex.exterior[1], Coord::new(far, i128::MIN + 1 + 20000));
    assert_eq!(hex.exterior[4], Coord::new(far, i128::MIN + 1));
}

#[test]
fn every_cell_from_a_constructor_has_an_outline() {
    let id = generate_hex_identifier(u64::MAX as i128, u64::MAX as i128, 15);
    let mut cells = vec![
        HexCell::from_hex_id(&id).unwrap(),
        HexCell::at_index(i64::MAX, i64::MAX, 0),
        HexCell::at_index(i64::MIN, i64::MIN, 0),
        HexCell::at_index(i64::MIN, i64::MAX, 15),
    ];
    for zoom in 0..=15u8 {
        cells.push(HexCell::from_bng(&Coord::new(COORD_LIMIT, -COORD_LIMIT), zoom).unwrap());
        cells.push(HexCell::from_bng(&Coord::new(-COORD_LIMIT, COORD_LIMIT), zoom).unwrap());
    }
    for cell in &cells {
        let polygon = cell.to_polygon();
        assert_eq!(polygon.exterior.len(), 7);
        assert_eq!(polygon.exterior[0], polygon.exterior[6]);
        assert!(polygon.interiors.is_empty());
        assert_eq!(polygon.exterior[1].x, cell.easting());
    }
}

#[test]
fn bounding_rectangle_of_the_outer_ring() {
    let mut polygon = Polygon::new(vec![
        Coord::new(3, 10),
        Coord::new(-7, 2),
        Coord::new(5, -4),
        Coord::new(0, 40),
        Coord::new(3, 10),
    ]);
    polygon.interiors.push(vec![Coord::new(-100, -100), Coord::new(100, 100)]);
    let rect = polygon.bounding_rect().unwrap();
    assert_eq!(rect.min(), Coord::new(-7, -4));
    assert_eq!(rect.max(), Coord::new(5, 40));
    let single = Polygon::new(vec![Coord::new(9, -9)]);
    let rect = single.bounding_rect().unwrap();
    assert_eq!((rect.min(), rect.max()), (Coord::new(9, -9), Coord::new(9, -9)));
    assert_eq!(Polygon::new(vec![]).bounding_rect(), None);
}
