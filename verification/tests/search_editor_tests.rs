use hexcore::editor::{BrushLayer, Editor};
use hexcore::hex::Cube;
use hexcore::search::reachable_in;
use hexcore::world::{Army, LocalityCategory, TileCategory, World};

fn cube(q: i32, r: i32) -> Cube {
    Cube::new(q, r)
}

fn army(owner: u32, can_move: bool) -> Army {
    Army { owner_index: owner, manpower: 10, morale: 5, can_move }
}

#[test]
fn search_from_immobile_army_is_empty() {
    let mut w = World::new();
    let src = cube(0, 0);
    w.upsert_terrain(src, TileCategory::Farmland);
    w.upsert_terrain(cube(1, 0), TileCategory::Farmland);
    w.set_army(src, Some(army(0, false)));
    assert!(w.get_all_legal_moves(src, 0).is_empty());
}

#[test]
fn search_from_empty_or_foreign_source_is_empty() {
    let mut w = World::new();
    let src = cube(0, 0);
    // no tile at all
    assert!(w.get_all_legal_moves(src, 0).is_empty());
    // a tile but no army
    w.upsert_terrain(src, TileCategory::Farmland);
    assert!(w.get_all_legal_moves(src, 0).is_empty());
    // another player's army
    w.set_army(src, Some(army(1, true)));
    assert!(w.get_all_legal_moves(src, 0).is_empty());
}

#[test]
fn search_excludes_water_regardless_of_budget() {
    // the scenario: Farmland with an army at the origin, Water next door
    let mut w = World::new();
    let src = cube(0, 0);
    let water = cube(1, -1);
    w.upsert_terrain(src, TileCategory::Farmland);
    w.set_ownership(src, Some(0));
    w.set_army(src, Some(army(0, true)));
    w.upsert_terrain(water, TileCategory::Water);
    let moves = w.get_all_legal_moves(src, 0);
    assert!(!moves.contains(&water));
    for budget in 1u32..6 {
        let wide = reachable_in(&w, 0, src, budget);
        assert!(!wide.contains(&water));
    }
}

#[test]
fn search_respects_budget_and_reports_no_duplicates() {
    let mut w = World::new();
    let strip = [cube(0, 0), cube(1, 0), cube(2, 0), cube(3, 0)];
    for c in strip.iter() {
        w.upsert_terrain(*c, TileCategory::Farmland);
    }
    w.set_army(strip[0], Some(army(0, true)));
    let moves = w.get_all_legal_moves(strip[0], 0);
    // allowance of two steps along the strip, source excluded
    assert_eq!(moves.len(), 2);
    assert!(moves.contains(&strip[1]) && moves.contains(&strip[2]));
    assert!(!moves.contains(&strip[3]));
    assert!(!moves.contains(&strip[0]));
    for i in 0..moves.len() {
        for j in i + 1..moves.len() {
            assert_ne!(moves[i], moves[j]);
        }
    }
}

#[test]
fn search_excludes_hostile_but_not_friendly_tiles() {
    let mut w = World::new();
    let src = cube(0, 0);
    let friendly = cube(1, 0);
    let hostile = cube(0, 1);
    for c in [src, friendly, hostile] {
        w.upsert_terrain(c, TileCategory::Farmland);
    }
    w.set_army(src, Some(army(0, true)));
    w.set_army(friendly, Some(army(0, true)));
    w.set_army(hostile, Some(army(1, true)));
    let moves = w.get_all_legal_moves(src, 0);
    assert!(moves.contains(&friendly));
    assert!(!moves.contains(&hostile));
}

#[test]
fn editor_paints_and_erases_terrain() {
    let mut e = Editor::new(World::new());
    let c = cube(2, 2);
    assert_eq!(e.brush, BrushLayer::Tile);
    e.click(c);
    assert_eq!(e.world.get(c).unwrap().category, TileCategory::Farmland);
    e.right_click();
    e.click(c);
    assert_eq!(e.world.get(c).unwrap().category, TileCategory::Water);
    e.right_click();
    // index two is the erase action for the terrain layer
    e.click(c);
    assert!(e.world.get(c).is_none());
    // and the cycle wraps back to the first category
    e.right_click();
    assert_eq!(e.brush_idx, 0);
}

#[test]
fn toggle_layer_keeps_brush_index() {
    let mut e = Editor::new(World::new());
    let c = cube(3, -1);
    e.click(c); // paint Farmland
    e.toggle_layer();
    e.right_click();
    e.right_click();
    e.right_click();
    assert_eq!(e.brush_idx, 3);
    e.toggle_layer();
    assert_eq!(e.brush, BrushLayer::Tile);
    assert_eq!(e.brush_idx, 3);
    // a stale index past the terrain categories acts as the erase action
    e.click(c);
    assert!(e.world.get(c).is_none());
    // cycling wraps the stale index through the terrain cycle
    e.right_click();
    assert_eq!(e.brush_idx, 1);
}

#[test]
fn editor_locality_layer_edits_existing_tiles_only() {
    let mut e = Editor::new(World::new());
    let c = cube(0, -2);
    e.click(c); // paint Farmland
    e.toggle_layer();
    assert_eq!(e.brush, BrushLayer::Locality);
    assert_eq!(e.brush_idx, 0);
    e.click(c);
    assert_eq!(e.world.get(c).unwrap().locality, Some(LocalityCategory::Capital));
    // clicking an absent coordinate changes nothing
    e.click(cube(9, 9));
    assert!(e.world.get(cube(9, 9)).is_none());
    // cycle to the erase action: five categories, then erase
    for _ in 0..5 {
        e.right_click();
    }
    e.click(c);
    assert!(e.world.get(c).unwrap().locality.is_none());
    e.toggle_layer();
    assert_eq!(e.brush, BrushLayer::Tile);
}
