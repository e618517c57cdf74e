use wfc_tiles::direction::Direction;
use wfc_tiles::feature::Feature;
use wfc_tiles::rotated_tile::RotatedTile;
use wfc_tiles::rotation::Rotation;
use wfc_tiles::tile::Tile;

#[test]
fn small_city() {
    let top = RotatedTile::new(Tile::CFFF, Rotation::D180);
    let bottom = RotatedTile::new(Tile::CFFF, Rotation::D0);
    assert!(top.connects(&bottom, Direction::South));
}

#[test]
fn small_city_wrong_rotation() {
    let top = RotatedTile::new(Tile::CFFF, Rotation::D0);
    let bottom = RotatedTile::new(Tile::CFFF, Rotation::D0);
    assert!(!top.connects(&bottom, Direction::South));
}

#[test]
fn feature_unrotated() {
    let t = RotatedTile::new(Tile::CCCF, Rotation::D0);
    assert_eq!(t.feature(Direction::North), Feature::City);
    assert_eq!(t.feature(Direction::East), Feature::City);
    assert_eq!(t.feature(Direction::South), Feature::City);
    assert_eq!(t.feature(Direction::West), Feature::Forest);
}

#[test]
fn feature_rotated() {
    let t = RotatedTile::new(Tile::CCCF, Rotation::D90);
    assert_eq!(t.feature(Direction::North), Feature::Forest);
    assert_eq!(t.feature(Direction::East), Feature::City);
    assert_eq!(t.feature(Direction::South), Feature::City);
    assert_eq!(t.feature(Direction::West), Feature::City);
}

#[test]
fn rotation_moves_features_one_side() {
    // One clockwise step shows each feature on the next side over.
    let unrotated = RotatedTile::new(Tile::CFRR, Rotation::D0);
    let once = RotatedTile::new(Tile::CFRR, Rotation::D90);
    assert_eq!(once.feature(Direction::East), unrotated.feature(Direction::North));
    assert_eq!(once.feature(Direction::South), unrotated.feature(Direction::East));
    assert_eq!(once.feature(Direction::West), unrotated.feature(Direction::South));
    assert_eq!(once.feature(Direction::North), unrotated.feature(Direction::West));
}

#[test]
fn rotation_full_cycle() {
    // Four clockwise steps chain back to the unrotated side mapping, on a
    // tile whose four canonical features are not all alike.
    let r0 = RotatedTile::new(Tile::CFRR, Rotation::D0);
    let r1 = RotatedTile::new(Tile::CFRR, Rotation::D90);
    let r2 = RotatedTile::new(Tile::CFRR, Rotation::D180);
    let r3 = RotatedTile::new(Tile::CFRR, Rotation::D270);
    assert_eq!(r1.feature(Direction::East), r0.feature(Direction::North));
    assert_eq!(r2.feature(Direction::South), r1.feature(Direction::East));
    assert_eq!(r3.feature(Direction::West), r2.feature(Direction::South));
    assert_eq!(r0.feature(Direction::North), r3.feature(Direction::West));
}

#[test]
fn connectivity_symmetry() {
    // a connects to b across side d exactly when b connects to a across
    // the opposite side, for every direction and a mixed pair of tiles.
    let a = RotatedTile::new(Tile::CFRR, Rotation::D90);
    let b = RotatedTile::new(Tile::FFRR, Rotation::D270);
    for d in Direction::all() {
        assert_eq!(a.connects(&b, d), b.connects(&a, d.rev()));
        assert_eq!(b.connects(&a, d), a.connects(&b, d.rev()));
    }
}

#[test]
fn direction_rev_and_step() {
    assert_eq!(Direction::North.rev(), Direction::South);
    assert_eq!(Direction::South.rev(), Direction::North);
    assert_eq!(Direction::East.rev(), Direction::West);
    assert_eq!(Direction::West.rev(), Direction::East);
    assert_eq!(Direction::North.step(), (0, 1));
    assert_eq!(Direction::East.step(), (1, 0));
    assert_eq!(Direction::South.step(), (0, -1));
    assert_eq!(Direction::West.step(), (-1, 0));
}

#[test]
fn getters() {
    let t = RotatedTile::new(Tile::FRFR, Rotation::D180);
    assert_eq!(*t.tile(), Tile::FRFR);
    assert_eq!(*t.rotation(), Rotation::D180);
}
