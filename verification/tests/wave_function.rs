use rand::SeedableRng;
use wfc_tiles::direction::Direction;
use wfc_tiles::rotated_tile::RotatedTile;
use wfc_tiles::rotation::Rotation;
use wfc_tiles::tile::Tile;
use wfc_tiles::wave_function::{
    entropy, filter_connecting, generate, generate_with, remove_candidate, sample, Args, TileMap,
};

fn rng_from(seed: u64) -> rand::rngs::StdRng {
    rand::rngs::StdRng::seed_from_u64(seed)
}

#[test]
fn entropy_sums_weights() {
    let candidates = vec![
        RotatedTile::new(Tile::CCCCS, Rotation::D0),
        RotatedTile::new(Tile::FFRR, Rotation::D0),
        RotatedTile::new(Tile::CFFF, Rotation::D90),
    ];
    assert_eq!(entropy(&candidates), 1 + 9 + 5);
    assert_eq!(entropy(&Vec::new()), 0);
}

#[test]
fn symmetric_tile_weight_inflation() {
    // A fully symmetric tile appears once per rotation in the cross
    // product, so its effective sampling weight is four times its nominal
    // catalogue weight.
    let variants = vec![
        RotatedTile::new(Tile::FFFF, Rotation::D0),
        RotatedTile::new(Tile::FFFF, Rotation::D90),
        RotatedTile::new(Tile::FFFF, Rotation::D180),
        RotatedTile::new(Tile::FFFF, Rotation::D270),
    ];
    assert_eq!(entropy(&variants), 4 * Tile::FFFF.weight());
}

#[test]
fn filter_keeps_only_connecting() {
    let placed = RotatedTile::new(Tile::CCCCS, Rotation::D0);
    let all_city = RotatedTile::new(Tile::CCCCS, Rotation::D90);
    let all_forest = RotatedTile::new(Tile::FFFF, Rotation::D0);
    let candidates = vec![all_city, all_forest];
    let filtered = filter_connecting(&candidates, placed, Direction::East);
    assert_eq!(filtered.len(), 1);
    assert_eq!(filtered[0], all_city);
    // Entropy never grows under propagation.
    assert!(entropy(&filtered) <= entropy(&candidates));
}

#[test]
fn remove_candidate_shrinks() {
    let a = RotatedTile::new(Tile::CCCF, Rotation::D0);
    let b = RotatedTile::new(Tile::CCCF, Rotation::D90);
    let candidates = vec![a, b];
    let removed = remove_candidate(&candidates, a);
    assert_eq!(removed.len(), 1);
    assert_eq!(removed[0], b);
    assert!(entropy(&removed) <= entropy(&candidates));
}

#[test]
fn weighted_sampling_bias() {
    // Weight 1 against weight 9: the heavy candidate should be drawn about
    // nine times in ten over many samples.
    let light = RotatedTile::new(Tile::CCCCS, Rotation::D0);
    let heavy = RotatedTile::new(Tile::FFRR, Rotation::D0);
    let candidates = vec![light, heavy];
    let mut rng = rng_from(11);
    let total = 20000;
    let mut heavy_count = 0;
    for _ in 0..total {
        if sample(&candidates, &mut rng) == heavy {
            heavy_count += 1;
        }
    }
    assert!(heavy_count > 17400, "heavy candidate drawn {heavy_count} of {total}");
    assert!(heavy_count < 18600, "heavy candidate drawn {heavy_count} of {total}");
}

#[test]
fn single_cell_forced() {
    // A one-cell grid with a one-tile catalogue must resolve to that tile.
    let only = RotatedTile::new(Tile::FFFF, Rotation::D0);
    let mut rng = rng_from(3);
    let map = generate_with(0, 0, 1, 1, vec![only], &mut rng).expect("one cell must resolve");
    assert_eq!(map.width(), 1);
    assert_eq!(map.height(), 1);
    assert_eq!(*map.get((0, 0)), Some(only));
}

#[test]
fn two_cells_agree_on_shared_edge() {
    // A catalogue of one tile shape under all four rotations: whatever the
    // run draws, the two cells must agree on the shared edge.
    for seed in 0..20 {
        let catalogue = vec![
            RotatedTile::new(Tile::CFCF, Rotation::D0),
            RotatedTile::new(Tile::CFCF, Rotation::D90),
            RotatedTile::new(Tile::CFCF, Rotation::D180),
            RotatedTile::new(Tile::CFCF, Rotation::D270),
        ];
        let mut rng = rng_from(seed);
        let map = generate_with(0, 0, 2, 1, catalogue, &mut rng).expect("grid must resolve");
        let left = (*map.get((0, 0))).expect("left cell resolved");
        let right = (*map.get((1, 0))).expect("right cell resolved");
        assert!(left.connects(&right, Direction::East));
        assert_eq!(left.feature(Direction::East), right.feature(Direction::West));
        assert_eq!(*left.tile(), Tile::CFCF);
        assert_eq!(*right.tile(), Tile::CFCF);
    }
}

#[test]
fn impossible_pair_reports_failure() {
    // Two candidates whose east and west features can never meet: the
    // second cell runs out of candidates and the run reports the failure.
    for seed in 0..10 {
        let catalogue = vec![
            RotatedTile::new(Tile::CCCF, Rotation::D0),
            RotatedTile::new(Tile::CCCR, Rotation::D0),
        ];
        let mut rng = rng_from(seed);
        let result = generate_with(0, 0, 2, 1, catalogue, &mut rng);
        assert!(result.is_none());
    }
}

#[test]
fn generate_full_map_is_consistent() {
    // The default run over the full catalogue: when it succeeds, every
    // cell is resolved and no two neighbours disagree on a shared edge.
    let mut solved: Option<TileMap> = None;
    for seed in 0..5 {
        let mut rng = rng_from(seed);
        if let Some(map) = generate(Args {}, &mut rng) {
            solved = Some(map);
            break;
        }
    }
    let map = solved.expect("at least one run out of five should succeed");
    for x in 0..50 {
        for y in 0..50 {
            let here = (*map.get((x, y))).expect("every cell resolved");
            if x + 1 < 50 {
                let east = (*map.get((x + 1, y))).expect("every cell resolved");
                assert!(here.connects(&east, Direction::East));
            }
            if y + 1 < 50 {
                let north = (*map.get((x, y + 1))).expect("every cell resolved");
                assert!(here.connects(&north, Direction::North));
            }
        }
    }
}
