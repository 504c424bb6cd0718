use hexcore::codec::{decode_world, encode_world, LoadError};
use hexcore::hex::Cube;
use hexcore::world::{Army, LocalityCategory, TileCategory, World};

fn cube(q: i32, r: i32) -> Cube {
    Cube::new(q, r)
}

fn mixed_world() -> World {
    let mut w = World::new();
    let a = cube(0, 0);
    let b = cube(1, -1);
    let c = cube(-3, 2);
    w.upsert_terrain(a, TileCategory::Farmland);
    w.upsert_terrain(b, TileCategory::Water);
    w.upsert_terrain(c, TileCategory::Farmland);
    w.set_locality(a, Some(LocalityCategory::Capital));
    w.set_locality(c, Some(LocalityCategory::Airport));
    w.set_ownership(a, Some(0));
    w.set_ownership(c, Some(1));
    w.set_army(a, Some(Army { owner_index: 0, manpower: 10, morale: 5, can_move: true }));
    w
}

#[test]
fn save_then_load_reproduces_tile_set() {
    let w = mixed_world();
    let bytes = encode_world(&w);
    let loaded = decode_world(&bytes).unwrap();
    assert_eq!(loaded.len(), w.len());
    for (c, t) in w.all_tiles().iter() {
        let lt = loaded.get(*c).unwrap();
        assert_eq!(lt.category, t.category);
        assert_eq!(lt.locality, t.locality);
        assert_eq!(lt.owner_index, t.owner_index);
        assert_eq!(lt.army, t.army);
    }
}

#[test]
fn save_then_load_empty_world() {
    let w = World::new();
    let bytes = encode_world(&w);
    assert_eq!(bytes.len(), 4);
    let loaded = decode_world(&bytes).unwrap();
    assert_eq!(loaded.len(), 0);
}

#[test]
fn load_rejects_truncated_data() {
    assert!(matches!(decode_world(&vec![]), Err(LoadError::Truncated)));
    assert!(matches!(decode_world(&vec![1, 0]), Err(LoadError::Truncated)));
    // announces one record, provides none
    assert!(matches!(decode_world(&vec![1, 0, 0, 0]), Err(LoadError::Truncated)));
    // a record cut short
    let mut bytes = encode_world(&mixed_world());
    bytes.pop();
    assert!(matches!(decode_world(&bytes), Err(LoadError::Truncated)));
}

#[test]
fn load_rejects_bad_tags() {
    let w = {
        let mut w = World::new();
        w.upsert_terrain(cube(0, 0), TileCategory::Farmland);
        w
    };
    let good = encode_world(&w);
    // terrain tag out of range
    let mut bad = good.clone();
    bad[4 + 8] = 7;
    assert!(matches!(decode_world(&bad), Err(LoadError::BadTag)));
    // locality tag out of range
    let mut bad = good.clone();
    bad[4 + 9] = 6;
    assert!(matches!(decode_world(&bad), Err(LoadError::BadTag)));
    // owner flag out of range
    let mut bad = good.clone();
    bad[4 + 10] = 2;
    assert!(matches!(decode_world(&bad), Err(LoadError::BadTag)));
    // army flag out of range
    let mut bad = good.clone();
    bad[4 + 15] = 9;
    assert!(matches!(decode_world(&bad), Err(LoadError::BadTag)));
    // movement flag out of range
    let mut bad = good.clone();
    bad[4 + 28] = 3;
    assert!(matches!(decode_world(&bad), Err(LoadError::BadTag)));
}

#[test]
fn load_rejects_overflowing_coordinate() {
    let w = {
        let mut w = World::new();
        w.upsert_terrain(cube(0, 0), TileCategory::Farmland);
        w
    };
    let mut bad = encode_world(&w);
    // both stored words zero: q == r == i32::MIN, whose derived third
    // component does not fit an i32
    for i in 0..8 {
        bad[4 + i] = 0;
    }
    assert!(matches!(decode_world(&bad), Err(LoadError::BadCoordinate)));
}

#[test]
fn load_rejects_duplicate_keys() {
    let w = {
        let mut w = World::new();
        w.upsert_terrain(cube(4, -4), TileCategory::Water);
        w
    };
    let one = encode_world(&w);
    let mut twice: Vec<u8> = vec![2, 0, 0, 0];
    twice.extend_from_slice(&one[4..]);
    twice.extend_from_slice(&one[4..]);
    assert!(matches!(decode_world(&twice), Err(LoadError::DuplicateKey)));
}

#[test]
fn load_rejects_trailing_data() {
    let mut bytes = encode_world(&mixed_world());
    bytes.push(0);
    assert!(matches!(decode_world(&bytes), Err(LoadError::TrailingData)));
}
