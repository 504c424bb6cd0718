use hexcore::hex::Cube;
use hexcore::layout::{Layout, Orientation, PixelPoint};
use hexcore::world::{Army, LocalityCategory, TileCategory, World};

fn cube(q: i32, r: i32) -> Cube {
    Cube::new(q, r)
}

#[test]
fn upsert_absent_creates_bare_tile() {
    let mut w = World::new();
    let c = cube(2, -3);
    w.upsert_terrain(c, TileCategory::Water);
    let t = w.get(c).unwrap();
    assert_eq!(t.category, TileCategory::Water);
    assert!(t.locality.is_none());
    assert!(t.owner_index.is_none());
    assert!(t.army.is_none());
    assert_eq!(w.len(), 1);
}

#[test]
fn upsert_existing_preserves_other_fields() {
    let mut w = World::new();
    let c = cube(0, 0);
    w.upsert_terrain(c, TileCategory::Farmland);
    w.set_locality(c, Some(LocalityCategory::City));
    w.set_ownership(c, Some(1));
    let army = Army { owner_index: 1, manpower: 8, morale: 4, can_move: true };
    w.set_army(c, Some(army));
    w.upsert_terrain(c, TileCategory::Water);
    let t = w.get(c).unwrap();
    assert_eq!(t.category, TileCategory::Water);
    assert_eq!(t.locality, Some(LocalityCategory::City));
    assert_eq!(t.owner_index, Some(1));
    assert_eq!(t.army, Some(army));
}

#[test]
fn set_locality_on_absent_is_a_no_op() {
    let mut w = World::new();
    w.set_locality(cube(5, 5), Some(LocalityCategory::Airport));
    assert_eq!(w.len(), 0);
    assert!(w.get(cube(5, 5)).is_none());
}

#[test]
fn clear_terrain_removes_tile_and_indices() {
    let mut w = World::new();
    let c = cube(1, -1);
    let d = cube(0, 1);
    w.upsert_terrain(c, TileCategory::Farmland);
    w.upsert_terrain(d, TileCategory::Farmland);
    w.set_ownership(c, Some(0));
    w.set_ownership(d, Some(0));
    w.set_locality(c, Some(LocalityCategory::Airport));
    w.clear_terrain(c);
    assert!(w.get(c).is_none());
    // gone from every derived index, while the other tile stays
    assert!(!w.owned_by(0).contains(&c));
    assert!(w.owned_by(0).contains(&d));
    assert!(!w.with_locality(LocalityCategory::Airport).contains(&c));
    // the untouched tile is unchanged
    let td = w.get(d).unwrap();
    assert_eq!(td.owner_index, Some(0));
}

#[test]
fn ownership_index_tracks_mutations() {
    let mut w = World::new();
    let a = cube(0, 0);
    let b = cube(1, 0);
    w.upsert_terrain(a, TileCategory::Farmland);
    w.upsert_terrain(b, TileCategory::Farmland);
    w.set_ownership(a, Some(2));
    w.set_ownership(b, Some(3));
    assert_eq!(w.owned_by(2), vec![a]);
    assert_eq!(w.owned_by(3), vec![b]);
    w.set_ownership(a, Some(3));
    let three = w.owned_by(3);
    assert_eq!(three.len(), 2);
    assert!(three.contains(&a) && three.contains(&b));
    assert!(w.owned_by(2).is_empty());
    w.set_ownership(b, None);
    assert_eq!(w.owned_by(3), vec![a]);
}

#[test]
fn locality_index_tracks_mutations() {
    let mut w = World::new();
    let a = cube(-1, 0);
    w.upsert_terrain(a, TileCategory::Farmland);
    w.set_locality(a, Some(LocalityCategory::Airport));
    assert_eq!(w.with_locality(LocalityCategory::Airport), vec![a]);
    w.set_locality(a, Some(LocalityCategory::PortCity));
    assert!(w.with_locality(LocalityCategory::Airport).is_empty());
    assert_eq!(w.with_locality(LocalityCategory::PortCity), vec![a]);
    w.set_locality(a, None);
    assert!(w.with_locality(LocalityCategory::PortCity).is_empty());
}

#[test]
fn pixel_roundtrip_both_orientations() {
    let samples = [(0, 0), (3, -2), (-7, 5), (100, -40)];
    for &(q, r) in samples.iter() {
        let c = cube(q, r);
        for orientation in [Orientation::Pointy, Orientation::Flat] {
            let l = Layout { orientation, size_x: 32, size_y: 32, origin_x: 300, origin_y: 300 };
            let p = l.to_pixel(c);
            let f = l.pixel_to_cube(p);
            // exact before rounding: the fraction is integral
            assert_eq!(f.qn, (c.q as i128) * f.den);
            assert_eq!(f.rn, (c.r as i128) * f.den);
            let back = f.round();
            assert_eq!((back.q, back.r, back.s), (c.q, c.r, c.s));
        }
    }
}

#[test]
fn resolve_pixel_finds_origin_tile() {
    let l = Layout {
        orientation: Orientation::Flat,
        size_x: 32,
        size_y: 32,
        origin_x: 300,
        origin_y: 300,
    };
    // the exact origin pixel lies in the tile at (0, 0, 0)
    let p = PixelPoint::from_ints(300, 300);
    let c = hexcore::layout::resolve_pixel(&l, p).unwrap();
    assert_eq!((c.q, c.r, c.s), (0, 0, 0));
    // a pixel one hex to the right of the origin, flat-top: x advances 1.5*size
    let p2 = PixelPoint::from_ints(300 + 48, 300 + 28);
    let c2 = hexcore::layout::resolve_pixel(&l, p2).unwrap();
    assert_eq!((c2.q, c2.r, c2.s), (1, 0, -1));
}
