use wfc_tiles::direction::Direction;
use wfc_tiles::rotation::Rotation;
use wfc_tiles::tile::Tile;

#[test]
fn base_total_tiles() {
    assert_eq!(Tile::total_weight(), 71);
}

#[test]
fn weights() {
    assert_eq!(Tile::CCCCS.weight(), 1);
    assert_eq!(Tile::CFFF.weight(), 5);
    assert_eq!(Tile::FFRR.weight(), 9);
    assert_eq!(Tile::FRFR.weight(), 8);
}

#[test]
fn enumeration_sizes() {
    assert_eq!(Tile::all().len(), 24);
    assert_eq!(Rotation::all().len(), 4);
    assert_eq!(Direction::all().len(), 4);
}
