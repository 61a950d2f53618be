use tilemap::hex::axial::AxialCoords;
use tilemap::hex::cube::CubeCoords;
use tilemap::hex::offset::OffsetCoords;
use tilemap::traits::TileCoords;

#[test]
fn offset_adjacent() {
    // test simplest case relative to center
    let coord = OffsetCoords::splat(0);
    let adjacent_coords = coord.adjacent_coords();
    assert_eq!(6, adjacent_coords.len());
    assert!(adjacent_coords.contains(&OffsetCoords::new(1, 0)));
    assert!(adjacent_coords.contains(&OffsetCoords::new(0, 1)));
    assert!(adjacent_coords.contains(&OffsetCoords::new(-1, 1)));
    assert!(adjacent_coords.contains(&OffsetCoords::new(-1, 0)));
    assert!(adjacent_coords.contains(&OffsetCoords::new(-1, -1)));
    assert!(adjacent_coords.contains(&OffsetCoords::new(0, -1)));

    // test an off center coordinate
    let coord = OffsetCoords::new(3, 2);
    let adjacent_coords = coord.adjacent_coords();
    assert_eq!(6, adjacent_coords.len());
    assert!(adjacent_coords.contains(&OffsetCoords::new(2, 1)));
    assert!(adjacent_coords.contains(&OffsetCoords::new(3, 1)));
    assert!(adjacent_coords.contains(&OffsetCoords::new(4, 2)));
    assert!(adjacent_coords.contains(&OffsetCoords::new(3, 3)));
    assert!(adjacent_coords.contains(&OffsetCoords::new(2, 3)));
    assert!(adjacent_coords.contains(&OffsetCoords::new(2, 2)));
}

#[test]
fn offset_from_axial_coords() {
    assert_eq!(OffsetCoords::new(-2, -2), OffsetCoords::from_axial(AxialCoords::new(-1, -2)));
    assert_eq!(OffsetCoords::new(-1, -2), OffsetCoords::from_axial(AxialCoords::new(0, -2)));
    assert_eq!(OffsetCoords::new(0, -2), OffsetCoords::from_axial(AxialCoords::new(1, -2)));
    assert_eq!(OffsetCoords::new(1, -2), OffsetCoords::from_axial(AxialCoords::new(2, -2)));
    assert_eq!(OffsetCoords::new(2, -2), OffsetCoords::from_axial(AxialCoords::new(3, -2)));

    assert_eq!(OffsetCoords::new(-2, -1), OffsetCoords::from_axial(AxialCoords::new(-1, -1)));
    assert_eq!(OffsetCoords::new(-1, -1), OffsetCoords::from_axial(AxialCoords::new(0, -1)));
    assert_eq!(OffsetCoords::new(0, -1), OffsetCoords::from_axial(AxialCoords::new(1, -1)));
    assert_eq!(OffsetCoords::new(1, -1), OffsetCoords::from_axial(AxialCoords::new(2, -1)));
    assert_eq!(OffsetCoords::new(2, -1), OffsetCoords::from_axial(AxialCoords::new(3, -1)));

    assert_eq!(OffsetCoords::new(-2, 0), OffsetCoords::from_axial(AxialCoords::new(-2, 0)));
    assert_eq!(OffsetCoords::new(-1, 0), OffsetCoords::from_axial(AxialCoords::new(-1, 0)));
    assert_eq!(OffsetCoords::new(0, 0), OffsetCoords::from_axial(AxialCoords::new(0, 0)));
    assert_eq!(OffsetCoords::new(1, 0), OffsetCoords::from_axial(AxialCoords::new(1, 0)));
    assert_eq!(OffsetCoords::new(2, 0), OffsetCoords::from_axial(AxialCoords::new(2, 0)));

    assert_eq!(OffsetCoords::new(-2, 1), OffsetCoords::from_axial(AxialCoords::new(-2, 1)));
    assert_eq!(OffsetCoords::new(-1, 1), OffsetCoords::from_axial(AxialCoords::new(-1, 1)));
    assert_eq!(OffsetCoords::new(0, 1), OffsetCoords::from_axial(AxialCoords::new(0, 1)));
    assert_eq!(OffsetCoords::new(1, 1), OffsetCoords::from_axial(AxialCoords::new(1, 1)));
    assert_eq!(OffsetCoords::new(2, 1), OffsetCoords::from_axial(AxialCoords::new(2, 1)));

    assert_eq!(OffsetCoords::new(-2, 2), OffsetCoords::from_axial(AxialCoords::new(-3, 2)));
    assert_eq!(OffsetCoords::new(-1, 2), OffsetCoords::from_axial(AxialCoords::new(-2, 2)));
    assert_eq!(OffsetCoords::new(0, 2), OffsetCoords::from_axial(AxialCoords::new(-1, 2)));
    assert_eq!(OffsetCoords::new(1, 2), OffsetCoords::from_axial(AxialCoords::new(0, 2)));
    assert_eq!(OffsetCoords::new(2, 2), OffsetCoords::from_axial(AxialCoords::new(1, 2)));
}

#[test]
fn offset_from_cube_coords() {
    assert_eq!(OffsetCoords::new(-2, -2), OffsetCoords::from_cube(CubeCoords::new(-1, -2, 3)));
    assert_eq!(OffsetCoords::new(-1, -2), OffsetCoords::from_cube(CubeCoords::new(0, -2, 2)));
    assert_eq!(OffsetCoords::new(0, -2), OffsetCoords::from_cube(CubeCoords::new(1, -2, 1)));
    assert_eq!(OffsetCoords::new(1, -2), OffsetCoords::from_cube(CubeCoords::new(2, -2, 0)));
    assert_eq!(OffsetCoords::new(2, -2), OffsetCoords::from_cube(CubeCoords::new(3, -2, -1)));

    assert_eq!(OffsetCoords::new(-2, -1), OffsetCoords::from_cube(CubeCoords::new(-1, -1, 2)));
    assert_eq!(OffsetCoords::new(-1, -1), OffsetCoords::from_cube(CubeCoords::new(0, -1, 1)));
    assert_eq!(OffsetCoords::new(0, -1), OffsetCoords::from_cube(CubeCoords::new(1, -1, 0)));
    assert_eq!(OffsetCoords::new(1, -1), OffsetCoords::from_cube(CubeCoords::new(2, -1, -1)));
    assert_eq!(OffsetCoords::new(2, -1), OffsetCoords::from_cube(CubeCoords::new(3, -1, -2)));

    assert_eq!(OffsetCoords::new(-2, 0), OffsetCoords::from_cube(CubeCoords::new(-2, 0, 2)));
    assert_eq!(OffsetCoords::new(-1, 0), OffsetCoords::from_cube(CubeCoords::new(-1, 0, 1)));
    assert_eq!(OffsetCoords::new(0, 0), OffsetCoords::from_cube(CubeCoords::new(0, 0, 0)));
    assert_eq!(OffsetCoords::new(1, 0), OffsetCoords::from_cube(CubeCoords::new(1, 0, -1)));
    assert_eq!(OffsetCoords::new(2, 0), OffsetCoords::from_cube(CubeCoords::new(2, 0, -2)));

    assert_eq!(OffsetCoords::new(-2, 1), OffsetCoords::from_cube(CubeCoords::new(-2, 1, 1)));
    assert_eq!(OffsetCoords::new(-1, 1), OffsetCoords::from_cube(CubeCoords::new(-1, 1, 0)));
    assert_eq!(OffsetCoords::new(0, 1), OffsetCoords::from_cube(CubeCoords::new(0, 1, -1)));
    assert_eq!(OffsetCoords::new(1, 1), OffsetCoords::from_cube(CubeCoords::new(1, 1, -2)));
    assert_eq!(OffsetCoords::new(2, 1), OffsetCoords::from_cube(CubeCoords::new(2, 1, -3)));

    assert_eq!(OffsetCoords::new(-2, 2), OffsetCoords::from_cube(CubeCoords::new(-3, 2, 1)));
    assert_eq!(OffsetCoords::new(-1, 2), OffsetCoords::from_cube(CubeCoords::new(-2, 2, 0)));
    assert_eq!(OffsetCoords::new(0, 2), OffsetCoords::from_cube(CubeCoords::new(-1, 2, -1)));
    assert_eq!(OffsetCoords::new(1, 2), OffsetCoords::from_cube(CubeCoords::new(0, 2, -2)));
    assert_eq!(OffsetCoords::new(2, 2), OffsetCoords::from_cube(CubeCoords::new(1, 2, -3)));
}
