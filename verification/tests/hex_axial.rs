use tilemap::hex::axial::AxialCoords;
use tilemap::hex::cube::CubeCoords;
use tilemap::hex::offset::OffsetCoords;
use tilemap::traits::TileCoords;

#[test]
fn axial_adjacent() {
    // test simplest case relative to center
    let coord = AxialCoords::splat(0);
    let adjacent_coords = coord.adjacent_coords();
    assert_eq!(6, adjacent_coords.len());
    assert!(adjacent_coords.contains(&AxialCoords::new(1, -1)));
    assert!(adjacent_coords.contains(&AxialCoords::new(1, 0)));
    assert!(adjacent_coords.contains(&AxialCoords::new(0, 1)));
    assert!(adjacent_coords.contains(&AxialCoords::new(-1, 1)));
    assert!(adjacent_coords.contains(&AxialCoords::new(-1, 0)));
    assert!(adjacent_coords.contains(&AxialCoords::new(0, -1)));

    // test an off center coordinate
    let coord = AxialCoords::new(2, -3);
    let adjacent_coords = coord.adjacent_coords();
    assert_eq!(6, adjacent_coords.len());
    assert!(adjacent_coords.contains(&AxialCoords::new(3, -3)));
    assert!(adjacent_coords.contains(&AxialCoords::new(2, -2)));
    assert!(adjacent_coords.contains(&AxialCoords::new(1, -2)));
    assert!(adjacent_coords.contains(&AxialCoords::new(1, -3)));
    assert!(adjacent_coords.contains(&AxialCoords::new(2, -4)));
    assert!(adjacent_coords.contains(&AxialCoords::new(3, -4)));
}

#[test]
fn axial_distance() {
    assert_eq!(0, AxialCoords::splat(0).distance(&AxialCoords::splat(0)));
    assert_eq!(1, AxialCoords::new(1, -1).distance(&AxialCoords::splat(0)));
    assert_eq!(2, AxialCoords::new(1, -1).distance(&AxialCoords::new(-1, 0)));
    assert_eq!(3, AxialCoords::new(2, -1).distance(&AxialCoords::new(-1, 0)));
}

#[test]
fn hex_adjacent() {
    let coord = AxialCoords::new(0, 0);
    let adjacent_coords = coord.adjacent_coords();
    assert_eq!(adjacent_coords.len(), 6);
    assert!(adjacent_coords.contains(&AxialCoords::new(0, -1)));
    assert!(adjacent_coords.contains(&AxialCoords::new(1, -1)));
    assert!(adjacent_coords.contains(&AxialCoords::new(1, 0)));
    assert!(adjacent_coords.contains(&AxialCoords::new(0, 1)));
    assert!(adjacent_coords.contains(&AxialCoords::new(-1, 1)));
    assert!(adjacent_coords.contains(&AxialCoords::new(-1, 0)));

    let coord = AxialCoords::new(-1, 2);
    let adjacent_coords = coord.adjacent_coords();
    assert_eq!(adjacent_coords.len(), 6);
    assert!(adjacent_coords.contains(&AxialCoords::new(-1, 1)));
    assert!(adjacent_coords.contains(&AxialCoords::new(0, 1)));
    assert!(adjacent_coords.contains(&AxialCoords::new(0, 2)));
    assert!(adjacent_coords.contains(&AxialCoords::new(-1, 3)));
    assert!(adjacent_coords.contains(&AxialCoords::new(-2, 3)));
    assert!(adjacent_coords.contains(&AxialCoords::new(-2, 2)));
}

#[test]
fn hex_distance() {
    let center = AxialCoords::new(0, 0);

    assert_eq!(0, AxialCoords::new(0, 0).distance(&center));

    assert_eq!(1, AxialCoords::new(1, 0).distance(&center));
    assert_eq!(1, AxialCoords::new(1, -1).distance(&center));
    assert_eq!(1, AxialCoords::new(0, -1).distance(&center));
    assert_eq!(1, AxialCoords::new(-1, 0).distance(&center));
    assert_eq!(1, AxialCoords::new(-1, 1).distance(&center));
    assert_eq!(1, AxialCoords::new(0, 1).distance(&center));

    assert_eq!(2, AxialCoords::new(0, -2).distance(&center));
    assert_eq!(2, AxialCoords::new(1, -2).distance(&center));
    assert_eq!(2, AxialCoords::new(2, -2).distance(&center));
    assert_eq!(2, AxialCoords::new(2, -1).distance(&center));
    assert_eq!(2, AxialCoords::new(2, 0).distance(&center));
}

#[test]
fn axial_line_to() {
    let start = AxialCoords::new(-5, 0);
    let end = AxialCoords::new(-1, 2);
    let line = start.line_to(&end);
    assert_eq!(7, line.len());
    assert_eq!(AxialCoords::new(-5, 0), line[0]);
    assert_eq!(AxialCoords::new(-1, 2), line[6]);
    assert!(line.contains(&AxialCoords::new(-4, 0)));
    assert!(line.contains(&AxialCoords::new(-4, 1)));
    assert!(line.contains(&AxialCoords::new(-3, 1)));
    assert!(line.contains(&AxialCoords::new(-2, 1)));
    assert!(line.contains(&AxialCoords::new(-2, 2)));
}

#[test]
fn ring_tiles() {
    let center = AxialCoords::splat(0);
    let ring = center.ring_tiles(1);
    assert!(ring.contains(&AxialCoords::new(1, -1)));
    assert!(ring.contains(&AxialCoords::new(1, 0)));
    assert!(ring.contains(&AxialCoords::new(0, 1)));
    assert!(ring.contains(&AxialCoords::new(-1, 1)));
    assert!(ring.contains(&AxialCoords::new(-1, 0)));
    assert!(ring.contains(&AxialCoords::new(0, -1)));
    assert_eq!(6, ring.len());

    let center = AxialCoords::new(1, 1);
    let ring = center.ring_tiles(2);
    assert!(ring.contains(&AxialCoords::new(3, 1)));
    assert!(ring.contains(&AxialCoords::new(2, 2)));
    assert!(ring.contains(&AxialCoords::new(1, 3)));
    assert!(ring.contains(&AxialCoords::new(0, 3)));
    assert!(ring.contains(&AxialCoords::new(-1, 3)));
    assert!(ring.contains(&AxialCoords::new(-1, 2)));
    assert!(ring.contains(&AxialCoords::new(-1, 1)));
    assert!(ring.contains(&AxialCoords::new(0, 0)));
    assert!(ring.contains(&AxialCoords::new(1, -1)));
    assert!(ring.contains(&AxialCoords::new(2, -1)));
    assert!(ring.contains(&AxialCoords::new(3, -1)));
    assert!(ring.contains(&AxialCoords::new(3, 0)));
    assert_eq!(12, ring.len());

    let center = AxialCoords::splat(0);
    let ring = center.ring_tiles(0);
    assert_eq!(1, ring.len());
    assert!(ring.contains(&center));
}

#[test]
fn area_tiles() {
    let center = AxialCoords::new(1, 1);
    let set = center.area_tiles(2);

    assert!(set.contains(&AxialCoords::new(1, 1)));

    assert!(set.contains(&AxialCoords::new(1, 0)));
    assert!(set.contains(&AxialCoords::new(2, 0)));
    assert!(set.contains(&AxialCoords::new(2, 1)));
    assert!(set.contains(&AxialCoords::new(1, 2)));
    assert!(set.contains(&AxialCoords::new(0, 2)));
    assert!(set.contains(&AxialCoords::new(0, 1)));

    assert!(set.contains(&AxialCoords::new(3, 1)));
    assert!(set.contains(&AxialCoords::new(2, 2)));
    assert!(set.contains(&AxialCoords::new(1, 3)));
    assert!(set.contains(&AxialCoords::new(0, 3)));
    assert!(set.contains(&AxialCoords::new(-1, 3)));
    assert!(set.contains(&AxialCoords::new(-1, 2)));
    assert!(set.contains(&AxialCoords::new(-1, 1)));
    assert!(set.contains(&AxialCoords::new(0, 0)));
    assert!(set.contains(&AxialCoords::new(1, -1)));
    assert!(set.contains(&AxialCoords::new(2, -1)));
    assert!(set.contains(&AxialCoords::new(3, -1)));
    assert!(set.contains(&AxialCoords::new(3, 0)));
    assert_eq!(19, set.len());
}

#[test]
fn axial_from_cube_coords() {
    assert_eq!(AxialCoords::new(0, 0), AxialCoords::from_cube(CubeCoords::new(0, 0, 0)));

    assert_eq!(AxialCoords::new(1, -1), AxialCoords::from_cube(CubeCoords::new(1, -1, 0)));
    assert_eq!(AxialCoords::new(1, 0), AxialCoords::from_cube(CubeCoords::new(1, 0, -1)));
    assert_eq!(AxialCoords::new(0, 1), AxialCoords::from_cube(CubeCoords::new(0, 1, -1)));
    assert_eq!(AxialCoords::new(-1, 1), AxialCoords::from_cube(CubeCoords::new(-1, 1, 0)));
    assert_eq!(AxialCoords::new(-1, 0), AxialCoords::from_cube(CubeCoords::new(-1, 0, 1)));
    assert_eq!(AxialCoords::new(0, -1), AxialCoords::from_cube(CubeCoords::new(0, -1, 1)));

    assert_eq!(AxialCoords::new(2, -2), AxialCoords::from_cube(CubeCoords::new(2, -2, 0)));
    assert_eq!(AxialCoords::new(2, -1), AxialCoords::from_cube(CubeCoords::new(2, -1, -1)));
    assert_eq!(AxialCoords::new(2, 0), AxialCoords::from_cube(CubeCoords::new(2, 0, -2)));
    assert_eq!(AxialCoords::new(1, 1), AxialCoords::from_cube(CubeCoords::new(1, 1, -2)));
    assert_eq!(AxialCoords::new(0, 2), AxialCoords::from_cube(CubeCoords::new(0, 2, -2)));
    assert_eq!(AxialCoords::new(-1, 2), AxialCoords::from_cube(CubeCoords::new(-1, 2, -1)));
    assert_eq!(AxialCoords::new(-2, 2), AxialCoords::from_cube(CubeCoords::new(-2, 2, 0)));
    assert_eq!(AxialCoords::new(-2, 1), AxialCoords::from_cube(CubeCoords::new(-2, 1, 1)));
    assert_eq!(AxialCoords::new(-2, 0), AxialCoords::from_cube(CubeCoords::new(-2, 0, 2)));
    assert_eq!(AxialCoords::new(-1, -1), AxialCoords::from_cube(CubeCoords::new(-1, -1, 2)));
    assert_eq!(AxialCoords::new(0, -2), AxialCoords::from_cube(CubeCoords::new(0, -2, 2)));
    assert_eq!(AxialCoords::new(1, -2), AxialCoords::from_cube(CubeCoords::new(1, -2, 1)));
}

#[test]
fn axial_from_offset_coords() {
    assert_eq!(AxialCoords::new(-1, -2), AxialCoords::from_offset(OffsetCoords::new(-2, -2)));
    assert_eq!(AxialCoords::new(0, -2), AxialCoords::from_offset(OffsetCoords::new(-1, -2)));
    assert_eq!(AxialCoords::new(1, -2), AxialCoords::from_offset(OffsetCoords::new(0, -2)));
    assert_eq!(AxialCoords::new(2, -2), AxialCoords::from_offset(OffsetCoords::new(1, -2)));
    assert_eq!(AxialCoords::new(3, -2), AxialCoords::from_offset(OffsetCoords::new(2, -2)));

    assert_eq!(AxialCoords::new(-1, -1), AxialCoords::from_offset(OffsetCoords::new(-2, -1)));
    assert_eq!(AxialCoords::new(0, -1), AxialCoords::from_offset(OffsetCoords::new(-1, -1)));
    assert_eq!(AxialCoords::new(1, -1), AxialCoords::from_offset(OffsetCoords::new(0, -1)));
    assert_eq!(AxialCoords::new(2, -1), AxialCoords::from_offset(OffsetCoords::new(1, -1)));
    assert_eq!(AxialCoords::new(3, -1), AxialCoords::from_offset(OffsetCoords::new(2, -1)));

    assert_eq!(AxialCoords::new(-2, 0), AxialCoords::from_offset(OffsetCoords::new(-2, 0)));
    assert_eq!(AxialCoords::new(-1, 0), AxialCoords::from_offset(OffsetCoords::new(-1, 0)));
    assert_eq!(AxialCoords::new(0, 0), AxialCoords::from_offset(OffsetCoords::new(0, 0)));
    assert_eq!(AxialCoords::new(1, 0), AxialCoords::from_offset(OffsetCoords::new(1, 0)));
    assert_eq!(AxialCoords::new(2, 0), AxialCoords::from_offset(OffsetCoords::new(2, 0)));

    assert_eq!(AxialCoords::new(-2, 1), AxialCoords::from_offset(OffsetCoords::new(-2, 1)));
    assert_eq!(AxialCoords::new(-1, 1), AxialCoords::from_offset(OffsetCoords::new(-1, 1)));
    assert_eq!(AxialCoords::new(0, 1), AxialCoords::from_offset(OffsetCoords::new(0, 1)));
    assert_eq!(AxialCoords::new(1, 1), AxialCoords::from_offset(OffsetCoords::new(1, 1)));
    assert_eq!(AxialCoords::new(2, 1), AxialCoords::from_offset(OffsetCoords::new(2, 1)));

    assert_eq!(AxialCoords::new(-3, 2), AxialCoords::from_offset(OffsetCoords::new(-2, 2)));
    assert_eq!(AxialCoords::new(-2, 2), AxialCoords::from_offset(OffsetCoords::new(-1, 2)));
    assert_eq!(AxialCoords::new(-1, 2), AxialCoords::from_offset(OffsetCoords::new(0, 2)));
    assert_eq!(AxialCoords::new(0, 2), AxialCoords::from_offset(OffsetCoords::new(1, 2)));
    assert_eq!(AxialCoords::new(1, 2), AxialCoords::from_offset(OffsetCoords::new(2, 2)));
}
