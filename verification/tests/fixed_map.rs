use rand::SeedableRng;
use wfc_tiles::fixed_map::FixedMap2D;

#[test]
fn new() {
    let _map: FixedMap2D<u8> = FixedMap2D::new(-10, -10, 20, 20);
}

#[test]
fn get() {
    let map: FixedMap2D<u8> = FixedMap2D::new(-10, -10, 20, 20);
    assert_eq!(*map.get((0, 0)), u8::default());
}

#[test]
fn get1() {
    let map: FixedMap2D<u8> = FixedMap2D::new(-10, -10, 20, 20);
    assert_eq!(*map.get((9, 0)), u8::default());
}

#[test]
fn get2() {
    let map: FixedMap2D<u8> = FixedMap2D::new(-10, -10, 20, 20);
    assert_eq!(*map.get((-10, 0)), u8::default());
}

#[test]
fn get3() {
    let map: FixedMap2D<u8> = FixedMap2D::new(-10, -10, 20, 20);
    assert_eq!(*map.get((0, 9)), u8::default());
}

#[test]
fn get4() {
    let map: FixedMap2D<u8> = FixedMap2D::new(-10, -10, 20, 20);
    assert_eq!(*map.get((0, -10)), u8::default());
}

#[test]
fn get_mut() {
    let mut map: FixedMap2D<u8> = FixedMap2D::new(-10, -10, 20, 20);
    for i in -10..10 {
        for j in -10..10 {
            let trial_number = (i + j * 20) as u8;
            map.set((i, j), trial_number);
            assert_eq!(*map.get((i, j)), trial_number);
        }
    }
}

#[test]
fn inbounds_edges() {
    let map: FixedMap2D<u8> = FixedMap2D::new(-10, -10, 20, 20);
    assert!(map.inbounds((-10, -10)));
    assert!(map.inbounds((9, 9)));
    assert!(!map.inbounds((10, 0)));
    assert!(!map.inbounds((0, 10)));
    assert!(!map.inbounds((-11, 0)));
    assert!(!map.inbounds((0, -11)));
}

#[test]
fn fill_overwrites() {
    let mut map: FixedMap2D<u8> = FixedMap2D::new(0, 0, 3, 2);
    map.fill(7);
    for x in 0..3 {
        for y in 0..2 {
            assert_eq!(*map.get((x, y)), 7u8);
        }
    }
}

#[test]
fn dimensions() {
    let map: FixedMap2D<u8> = FixedMap2D::new(-10, -10, 20, 30);
    assert_eq!(map.width(), 20);
    assert_eq!(map.height(), 30);
    let default_map: FixedMap2D<u8> = Default::default();
    assert_eq!(default_map.width(), 50);
    assert_eq!(default_map.height(), 50);
}

#[test]
fn sample_point_single_cell() {
    let map: FixedMap2D<u8> = FixedMap2D::new(5, -3, 1, 1);
    let mut rng = rand::rngs::StdRng::seed_from_u64(1);
    assert_eq!(map.sample_point(&mut rng), (5, -3));
}

#[test]
fn sample_point_in_bounds() {
    let map: FixedMap2D<u8> = FixedMap2D::new(-10, -10, 20, 20);
    let mut rng = rand::rngs::StdRng::seed_from_u64(2);
    for _ in 0..100 {
        let p = map.sample_point(&mut rng);
        assert!(map.inbounds(p));
    }
}
