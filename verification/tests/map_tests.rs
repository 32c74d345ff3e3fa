use steel_core::config::{BuildingKind, ResourceKind, MAP_H, MAP_W};
use steel_core::map::{hash2_bits, in_core_reserve, GameMap, Inventory, Tile};

/// The ore layout of a new game: seven round patches thinned by the cell hash.
fn seed_ore_at(x: i32, y: i32) -> Option<ResourceKind> {
    let patches = [
        (8, 10, 3.2_f32, ResourceKind::Copper, 0.85_f32),
        (12, 18, 2.8, ResourceKind::Copper, 0.75),
        (28, 8, 3.0, ResourceKind::Copper, 0.8),
        (30, 20, 2.5, ResourceKind::Lead, 0.7),
        (22, 14, 2.2, ResourceKind::Lead, 0.65),
        (6, 22, 2.0, ResourceKind::Lead, 0.6),
        (18, 6, 2.4, ResourceKind::Copper, 0.7),
    ];
    for &(cx, cy, r, ore, dens) in &patches {
        let d = ((x - cx) as f32).hypot((y - cy) as f32);
        if d < r {
            let edge = 1.0 - d / r;
            let n = (hash2_bits(x, y) as f32) / 4294967296.0;
            if n < dens * (0.45 + edge * 0.55) {
                return Some(ore);
            }
        }
    }
    None
}

fn new_map() -> GameMap {
    GameMap::new(seed_ore_at)
}

#[test]
fn ores_seeded() {
    let map = new_map();
    let ores = map.tiles.iter().filter(|t| t.ore.is_some()).count();
    assert!(ores > 40, "expected ore veins, got {ores}");
}

#[test]
fn path_to_core_tiles() {
    let mut map = new_map();
    let core = 1u64;
    map.mark(18, 13, 3, core, true);
    let goals: Vec<(i32, i32)> = (13..16)
        .flat_map(|y| (18..21).map(move |x| (x, y)))
        .collect();
    let path = map.find_path(1, 1, &goals);
    assert!(path.is_some(), "should path to multi-tile core");
    assert!(path.unwrap().len() > 5);
}

#[test]
fn drill_requires_ore() {
    let map = new_map();
    let empty = (0..MAP_W)
        .flat_map(|x| (0..MAP_H).map(move |y| (x, y)))
        .find(|&(x, y)| map.get(x, y).map(|t| t.ore.is_none() && !t.occupied).unwrap_or(false))
        .unwrap();
    assert!(!map.can_place(empty.0, empty.1, 1, true));
    let ore_tile = (0..MAP_W)
        .flat_map(|x| (0..MAP_H).map(move |y| (x, y)))
        .find(|&(x, y)| map.get(x, y).map(|t| t.ore.is_some()).unwrap_or(false))
        .unwrap();
    assert!(map.can_place(ore_tile.0, ore_tile.1, 1, true));
}

fn blank() -> GameMap {
    GameMap::new(|_x: i32, _y: i32| None)
}

#[test]
fn new_map_is_empty_and_keeps_core_reserve_clear() {
    let map = GameMap::new(|_x: i32, _y: i32| Some(ResourceKind::Lead));
    assert_eq!(map.w, 40);
    assert_eq!(map.h, 30);
    assert_eq!(map.tiles.len(), 1200);
    assert!(map.get(17, 12).unwrap().ore.is_none());
    assert!(map.get(22, 17).unwrap().ore.is_none());
    assert_eq!(map.get(16, 12).unwrap().ore, Some(ResourceKind::Lead));
    assert_eq!(map.get(23, 17).unwrap().ore, Some(ResourceKind::Lead));
    assert!(map.tiles.iter().all(|t| !t.occupied && !t.solid && t.building.is_none()));
    assert!(in_core_reserve(20, 15));
    assert!(!in_core_reserve(20, 18));
}

#[test]
fn seeded_map_keeps_core_reserve_clear() {
    let map = new_map();
    for x in 17..=22 {
        for y in 12..=17 {
            assert!(map.get(x, y).unwrap().ore.is_none());
        }
    }
}

#[test]
fn hash2_bits_values() {
    assert_eq!(hash2_bits(0, 0), 0);
    assert_eq!(hash2_bits(1, 0), 2112582102);
    assert_eq!(hash2_bits(8, 10), 970838399);
    assert_eq!(hash2_bits(-3, 7), 525871287);
}

#[test]
fn get_and_bounds() {
    let map = blank();
    assert!(map.get(-1, 0).is_none());
    assert!(map.get(0, -1).is_none());
    assert!(map.get(40, 0).is_none());
    assert!(map.get(0, 30).is_none());
    assert!(map.get(39, 29).is_some());
    assert!(map.in_bounds(0, 0));
    assert!(!map.in_bounds(40, 29));
}

#[test]
fn get_mut_writes_one_tile() {
    let mut map = blank();
    {
        let t = map.get_mut(5, 6).unwrap();
        t.ore = Some(ResourceKind::Copper);
    }
    assert_eq!(map.get(5, 6).unwrap().ore, Some(ResourceKind::Copper));
    assert!(map.get(6, 5).unwrap().ore.is_none());
    assert!(map.get_mut(-2, 3).is_none());
    assert_eq!(map.tiles[6 * 40 + 5].ore, Some(ResourceKind::Copper));
}

#[test]
fn mark_and_clear_footprint() {
    let mut map = blank();
    map.mark(38, 28, 3, 7, true);
    for (x, y) in [(38, 28), (39, 28), (38, 29), (39, 29)] {
        let t = map.get(x, y).unwrap();
        assert!(t.occupied && t.solid);
        assert_eq!(t.building, Some(7));
    }
    assert!(!map.get(37, 28).unwrap().occupied);
    assert!(!map.can_place(37, 27, 3, false));
    assert!(map.can_place(35, 27, 3, false));
    assert_eq!(map.building_at(39, 29), Some(7));
    assert_eq!(map.building_at(40, 29), None);
    map.clear(38, 28, 3);
    assert!(map.tiles.iter().all(|t| !t.occupied && !t.solid && t.building.is_none()));
    assert!(map.can_place(38, 28, 2, false));
}

#[test]
fn conveyor_marks_non_solid() {
    let mut map = blank();
    map.mark(4, 4, 1, 9, BuildingKind::Conveyor.solid());
    let t = map.get(4, 4).unwrap();
    assert!(t.occupied);
    assert!(!t.solid);
}

#[test]
fn can_place_edges() {
    let map = blank();
    assert!(map.can_place(0, 0, 1, false));
    assert!(map.can_place(37, 27, 3, false));
    assert!(!map.can_place(38, 27, 3, false));
    assert!(!map.can_place(-1, 0, 1, false));
    assert!(!map.can_place(0, 0, 1, true));
    assert!(map.can_place(0, 0, 0, false));
}

#[test]
fn drill_ore_defaults_to_copper() {
    let mut map = blank();
    assert_eq!(map.drill_ore(3, 3), ResourceKind::Copper);
    map.get_mut(3, 3).unwrap().ore = Some(ResourceKind::Lead);
    assert_eq!(map.drill_ore(3, 3), ResourceKind::Lead);
    assert_eq!(map.drill_ore(-3, 3), ResourceKind::Copper);
}

#[test]
fn tile_default_is_empty() {
    let t = Tile::default();
    assert!(t.ore.is_none() && t.building.is_none() && !t.occupied && !t.solid);
}

#[test]
fn inventory_pay_and_refund() {
    let mut inv = Inventory { copper: 100, lead: 30 };
    assert!(inv.can_afford(BuildingKind::Scatter));
    assert!(inv.pay(BuildingKind::Scatter));
    assert_eq!((inv.copper, inv.lead), (60, 5));
    assert!(!inv.can_afford(BuildingKind::Scatter));
    assert!(!inv.pay(BuildingKind::Scatter));
    assert_eq!((inv.copper, inv.lead), (60, 5));
    inv.refund_half(BuildingKind::Scatter);
    assert_eq!((inv.copper, inv.lead), (80, 17));
    inv.refund_half(BuildingKind::Conveyor);
    assert_eq!((inv.copper, inv.lead), (80, 17));
    inv.add(ResourceKind::Lead, 3);
    inv.add(ResourceKind::Copper, 2);
    assert_eq!((inv.copper, inv.lead), (82, 20));
}

#[test]
fn build_then_demolish_costs_the_unrefunded_half() {
    let mut inv = Inventory { copper: 100, lead: 30 };
    assert!(inv.pay(BuildingKind::Duo));
    inv.refund_half(BuildingKind::Duo);
    assert_eq!(inv.copper, 100 - (35 - 35 / 2));
    assert_eq!(inv.lead, 30);
}
