use tilemap::hex::axial::AxialCoords;
use tilemap::hex::cube::CubeCoords;
use tilemap::hex::offset::OffsetCoords;
use tilemap::traits::TileCoords;

#[test]
fn is_valid() {
    assert!(CubeCoords::new(-2, 3, -1).is_valid());
    assert!(!CubeCoords::new(-2, 3, 0).is_valid());
    assert!(!CubeCoords::new(-2, 3, -2).is_valid());
}

#[test]
fn cube_adjacent() {
    // test simplest case relative to center
    let coord = CubeCoords::splat(0);
    let adjacent_coords = coord.adjacent_coords();
    assert_eq!(6, adjacent_coords.len());
    assert!(adjacent_coords.contains(&CubeCoords::new(1, -1, 0)));
    assert!(adjacent_coords.contains(&CubeCoords::new(1, 0, -1)));
    assert!(adjacent_coords.contains(&CubeCoords::new(0, 1, -1)));
    assert!(adjacent_coords.contains(&CubeCoords::new(-1, 1, 0)));
    assert!(adjacent_coords.contains(&CubeCoords::new(-1, 0, 1)));
    assert!(adjacent_coords.contains(&CubeCoords::new(0, -1, 1)));

    // test an off center coordinate
    let coord = CubeCoords::new(2, -3, 1);
    let adjacent_coords = coord.adjacent_coords();
    assert_eq!(6, adjacent_coords.len());
    assert!(adjacent_coords.contains(&CubeCoords::new(3, -3, 0)));
    assert!(adjacent_coords.contains(&CubeCoords::new(2, -2, 0)));
    assert!(adjacent_coords.contains(&CubeCoords::new(1, -2, 1)));
    assert!(adjacent_coords.contains(&CubeCoords::new(1, -3, 2)));
    assert!(adjacent_coords.contains(&CubeCoords::new(2, -4, 2)));
    assert!(adjacent_coords.contains(&CubeCoords::new(3, -4, 1)));
}

#[test]
fn cube_distance() {
    assert_eq!(0, CubeCoords::splat(0).distance(&CubeCoords::splat(0)));
    assert_eq!(1, CubeCoords::new(1, -1, 0).distance(&CubeCoords::splat(0)));
    assert_eq!(2, CubeCoords::new(1, -1, 0).distance(&CubeCoords::new(-1, 0, 1)));
    assert_eq!(3, CubeCoords::new(2, -1, -1).distance(&CubeCoords::new(-1, 0, 1)));
}

#[test]
fn line_to() {
    let start = CubeCoords::new(-5, 0, 5);
    let end = CubeCoords::new(-1, 2, -1);
    let line = start.line_to(&end);
    assert!(line.contains(&CubeCoords::new(-5, 0, 5)));
    assert!(line.contains(&CubeCoords::new(-4, 0, 4)));
    assert!(line.contains(&CubeCoords::new(-4, 1, 3)));
    assert!(line.contains(&CubeCoords::new(-3, 1, 2)));
    assert!(line.contains(&CubeCoords::new(-2, 1, 1)));
    assert!(line.contains(&CubeCoords::new(-2, 2, 0)));
    assert!(line.contains(&CubeCoords::new(-1, 2, -1)));
    assert_eq!(7, line.len());

    let start = CubeCoords::new(0, 0, 0);
    let end = CubeCoords::new(1, 0, -1);
    let line = start.line_to(&end);
    assert_eq!(2, line.len());

    let start = CubeCoords::new(1, 0, -1);
    let line = start.line_to(&end);
    assert_eq!(1, line.len());
}

#[test]
fn cube_from_axial_coords() {
    assert_eq!(CubeCoords::new(0, 0, 0), CubeCoords::from_axial(AxialCoords::new(0, 0)));

    assert_eq!(CubeCoords::new(1, -1, 0), CubeCoords::from_axial(AxialCoords::new(1, -1)));
    assert_eq!(CubeCoords::new(1, 0, -1), CubeCoords::from_axial(AxialCoords::new(1, 0)));
    assert_eq!(CubeCoords::new(0, 1, -1), CubeCoords::from_axial(AxialCoords::new(0, 1)));
    assert_eq!(CubeCoords::new(-1, 1, 0), CubeCoords::from_axial(AxialCoords::new(-1, 1)));
    assert_eq!(CubeCoords::new(-1, 0, 1), CubeCoords::from_axial(AxialCoords::new(-1, 0)));
    assert_eq!(CubeCoords::new(0, -1, 1), CubeCoords::from_axial(AxialCoords::new(0, -1)));

    assert_eq!(CubeCoords::new(2, -2, 0), CubeCoords::from_axial(AxialCoords::new(2, -2)));
    assert_eq!(CubeCoords::new(2, -1, -1), CubeCoords::from_axial(AxialCoords::new(2, -1)));
    assert_eq!(CubeCoords::new(2, 0, -2), CubeCoords::from_axial(AxialCoords::new(2, 0)));
    assert_eq!(CubeCoords::new(1, 1, -2), CubeCoords::from_axial(AxialCoords::new(1, 1)));
    assert_eq!(CubeCoords::new(0, 2, -2), CubeCoords::from_axial(AxialCoords::new(0, 2)));
    assert_eq!(CubeCoords::new(-1, 2, -1), CubeCoords::from_axial(AxialCoords::new(-1, 2)));
    assert_eq!(CubeCoords::new(-2, 2, 0), CubeCoords::from_axial(AxialCoords::new(-2, 2)));
    assert_eq!(CubeCoords::new(-2, 1, 1), CubeCoords::from_axial(AxialCoords::new(-2, 1)));
    assert_eq!(CubeCoords::new(-2, 0, 2), CubeCoords::from_axial(AxialCoords::new(-2, 0)));
    assert_eq!(CubeCoords::new(-1, -1, 2), CubeCoords::from_axial(AxialCoords::new(-1, -1)));
    assert_eq!(CubeCoords::new(0, -2, 2), CubeCoords::from_axial(AxialCoords::new(0, -2)));
    assert_eq!(CubeCoords::new(1, -2, 1), CubeCoords::from_axial(AxialCoords::new(1, -2)));
}

#[test]
fn cube_from_offset_coords() {
    assert_eq!(CubeCoords::new(-1, -2, 3), CubeCoords::from_offset(OffsetCoords::new(-2, -2)));
    assert_eq!(CubeCoords::new(0, -2, 2), CubeCoords::from_offset(OffsetCoords::new(-1, -2)));
    assert_eq!(CubeCoords::new(1, -2, 1), CubeCoords::from_offset(OffsetCoords::new(0, -2)));
    assert_eq!(CubeCoords::new(2, -2, 0), CubeCoords::from_offset(OffsetCoords::new(1, -2)));
    assert_eq!(CubeCoords::new(3, -2, -1), CubeCoords::from_offset(OffsetCoords::new(2, -2)));

    assert_eq!(CubeCoords::new(-1, -1, 2), CubeCoords::from_offset(OffsetCoords::new(-2, -1)));
    assert_eq!(CubeCoords::new(0, -1, 1), CubeCoords::from_offset(OffsetCoords::new(-1, -1)));
    assert_eq!(CubeCoords::new(1, -1, 0), CubeCoords::from_offset(OffsetCoords::new(0, -1)));
    assert_eq!(CubeCoords::new(2, -1, -1), CubeCoords::from_offset(OffsetCoords::new(1, -1)));
    assert_eq!(CubeCoords::new(3, -1, -2), CubeCoords::from_offset(OffsetCoords::new(2, -1)));

    assert_eq!(CubeCoords::new(-2, 0, 2), CubeCoords::from_offset(OffsetCoords::new(-2, 0)));
    assert_eq!(CubeCoords::new(-1, 0, 1), CubeCoords::from_offset(OffsetCoords::new(-1, 0)));
    assert_eq!(CubeCoords::new(0, 0, 0), CubeCoords::from_offset(OffsetCoords::new(0, 0)));
    assert_eq!(CubeCoords::new(1, 0, -1), CubeCoords::from_offset(OffsetCoords::new(1, 0)));
    assert_eq!(CubeCoords::new(2, 0, -2), CubeCoords::from_offset(OffsetCoords::new(2, 0)));

    assert_eq!(CubeCoords::new(-2, 1, 1), CubeCoords::from_offset(OffsetCoords::new(-2, 1)));
    assert_eq!(CubeCoords::new(-1, 1, 0), CubeCoords::from_offset(OffsetCoords::new(-1, 1)));
    assert_eq!(CubeCoords::new(0, 1, -1), CubeCoords::from_offset(OffsetCoords::new(0, 1)));
    assert_eq!(CubeCoords::new(1, 1, -2), CubeCoords::from_offset(OffsetCoords::new(1, 1)));
    assert_eq!(CubeCoords::new(2, 1, -3), CubeCoords::from_offset(OffsetCoords::new(2, 1)));

    assert_eq!(CubeCoords::new(-3, 2, 1), CubeCoords::from_offset(OffsetCoords::new(-2, 2)));
    assert_eq!(CubeCoords::new(-2, 2, 0), CubeCoords::from_offset(OffsetCoords::new(-1, 2)));
    assert_eq!(CubeCoords::new(-1, 2, -1), CubeCoords::from_offset(OffsetCoords::new(0, 2)));
    assert_eq!(CubeCoords::new(0, 2, -2), CubeCoords::from_offset(OffsetCoords::new(1, 2)));
    assert_eq!(CubeCoords::new(1, 2, -3), CubeCoords::from_offset(OffsetCoords::new(2, 2)));
}

#[test]
fn sub() {
    assert_eq!(
        CubeCoords::new(0, -1, 1),
        CubeCoords::new(0, -3, 3).sub(&CubeCoords::new(0, -2, 2))
    );
    assert_eq!(
        CubeCoords::new(0, 1, -1),
        CubeCoords::new(0, -2, 2).sub(&CubeCoords::new(0, -3, 3))
    );
    assert_eq!(
        CubeCoords::new(3, -2, -1),
        CubeCoords::new(1, 1, -2).sub(&CubeCoords::new(-2, 3, -1))
    );
}
