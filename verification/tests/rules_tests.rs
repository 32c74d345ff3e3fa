use steel_core::combat::{
    blocker, edge_tile, footprint_cells, pick_spawn_tile, GameOver, Magazine, WaveCounter,
};
use steel_core::config::{BuildingKind, Dir, ResourceKind, WaveStats};
use steel_core::logistics::{accepts, first_taker, Receiver};
use steel_core::map::{GameMap, Inventory};
use steel_core::placement::{demolish, placement_ok, BuildMode};

fn blank() -> GameMap {
    GameMap::new(|_x: i32, _y: i32| None)
}

#[test]
fn dir_turns_and_steps() {
    let all = [Dir::Right, Dir::Down, Dir::Left, Dir::Up];
    for (i, d) in all.iter().enumerate() {
        assert_eq!(d.index() as usize, i);
        assert_eq!(Dir::from_index(i as u8), *d);
        assert_eq!(Dir::from_index(i as u8 + 4), *d);
        assert_eq!(d.next().next().next().next(), *d);
        let (dx, dy) = d.delta();
        assert_eq!(Dir::from_delta(dx, dy), Some(*d));
        let (nx, ny) = d.next().delta();
        assert_eq!((nx, ny), (dy, -dx));
    }
    assert_eq!(Dir::Right.next(), Dir::Down);
    assert_eq!(Dir::Up.next(), Dir::Right);
    assert_eq!(Dir::Down.delta(), (0, -1));
}

#[test]
fn dir_from_delta_cases() {
    assert_eq!(Dir::from_delta(0, 0), None);
    assert_eq!(Dir::from_delta(2, -2), Some(Dir::Right));
    assert_eq!(Dir::from_delta(-1, 1), Some(Dir::Left));
    assert_eq!(Dir::from_delta(0, -3), Some(Dir::Down));
    assert_eq!(Dir::from_delta(1, 5), Some(Dir::Up));
}

#[test]
fn building_catalogue() {
    assert_eq!(
        BuildingKind::selectable(),
        [BuildingKind::Drill, BuildingKind::Conveyor, BuildingKind::Wall, BuildingKind::Duo, BuildingKind::Scatter]
    );
    assert_eq!(BuildingKind::Core.size(), 3);
    assert_eq!(BuildingKind::Wall.size(), 1);
    assert!(!BuildingKind::Conveyor.solid());
    assert!(BuildingKind::Wall.solid());
    assert_eq!(BuildingKind::Drill.cost(), (12, 0));
    assert_eq!(BuildingKind::Wall.cost(), (6, 0));
    assert_eq!(BuildingKind::Duo.cost(), (35, 0));
    assert_eq!(BuildingKind::Scatter.cost(), (40, 25));
    assert_eq!(BuildingKind::Core.cost(), (0, 0));
    assert_eq!(BuildingKind::Scatter.name(), "散射炮");
    assert_eq!(BuildingKind::Drill.description(), "在矿脉上开采资源");
    assert_eq!(ResourceKind::Lead.name(), "铅");
    assert_eq!(WaveStats::WIN_WAVE, 15);
}

#[test]
fn hotkeys_select_cycle_cancel_rotate() {
    let mut mode = BuildMode::new();
    assert!(mode.selected.is_none());
    mode.select_slot(3);
    assert_eq!(mode.selected, Some(BuildingKind::Duo));
    mode.select_slot(7);
    assert_eq!(mode.selected, Some(BuildingKind::Duo));
    mode.cycle();
    assert_eq!(mode.selected, Some(BuildingKind::Scatter));
    mode.cycle();
    assert_eq!(mode.selected, Some(BuildingKind::Drill));
    for _ in 0..5 {
        mode.cycle();
    }
    assert_eq!(mode.selected, Some(BuildingKind::Drill));
    mode.cancel();
    assert!(mode.selected.is_none());
    mode.cycle();
    assert_eq!(mode.selected, Some(BuildingKind::Drill));
    mode.selected = Some(BuildingKind::Core);
    mode.cycle();
    assert_eq!(mode.selected, Some(BuildingKind::Drill));
    mode.rotate();
    assert_eq!(mode.rot, Dir::Down);
}

#[test]
fn click_places_and_pays_once_per_cell() {
    let map = blank();
    let mut inv = Inventory { copper: 100, lead: 30 };
    let mut mode = BuildMode::new();
    mode.select_slot(2); // wall
    let p = mode.click(&map, &mut inv, 4, 5, true, false).unwrap();
    assert_eq!((p.kind, p.tx, p.ty, p.rot), (BuildingKind::Wall, 4, 5, Dir::Right));
    assert_eq!(inv.copper, 94);
    assert_eq!(mode.last_place, Some((4, 5)));
    // holding the button on the same cell builds nothing more
    assert!(mode.click(&map, &mut inv, 4, 5, true, false).is_none());
    assert_eq!(inv.copper, 94);
    // releasing the button forgets the last cell
    assert!(mode.click(&map, &mut inv, 4, 5, false, false).is_none());
    assert_eq!(mode.last_place, None);
    // a finished game ignores clicks
    assert!(mode.click(&map, &mut inv, 9, 9, true, true).is_none());
    assert_eq!(inv.copper, 94);
}

#[test]
fn click_refuses_bad_sites_and_poverty() {
    let mut map = blank();
    let mut inv = Inventory { copper: 100, lead: 30 };
    let mut mode = BuildMode::new();
    mode.select_slot(0); // drill
    assert!(mode.click(&map, &mut inv, 4, 5, true, false).is_none());
    assert_eq!(inv.copper, 100);
    map.get_mut(4, 5).unwrap().ore = Some(ResourceKind::Lead);
    let p = mode.click(&map, &mut inv, 4, 5, true, false).unwrap();
    assert_eq!(p.kind, BuildingKind::Drill);
    assert_eq!(inv.copper, 88);
    map.mark(6, 6, 1, 3, true);
    mode.select_slot(2);
    assert!(mode.click(&map, &mut inv, 6, 6, true, false).is_none());
    let mut poor = Inventory { copper: 39, lead: 25 };
    mode.select_slot(4);
    assert!(mode.click(&map, &mut poor, 10, 10, true, false).is_none());
    assert_eq!(poor.copper, 39);
    assert!(!placement_ok(&map, &poor, BuildingKind::Scatter, 10, 10));
    assert!(placement_ok(&map, &inv, BuildingKind::Scatter, 10, 10));
    assert!(!placement_ok(&map, &inv, BuildingKind::Drill, 10, 10));
    assert!(placement_ok(&map, &inv, BuildingKind::Drill, 4, 5));
}

#[test]
fn dragging_conveyors_turns_them() {
    let map = blank();
    let mut inv = Inventory { copper: 100, lead: 30 };
    let mut mode = BuildMode::new();
    mode.select_slot(1); // conveyor
    let a = mode.click(&map, &mut inv, 10, 10, true, false).unwrap();
    assert_eq!(a.rot, Dir::Right);
    let b = mode.click(&map, &mut inv, 10, 11, true, false).unwrap();
    assert_eq!(b.rot, Dir::Up);
    assert_eq!(mode.rot, Dir::Up);
    let c = mode.click(&map, &mut inv, 9, 11, true, false).unwrap();
    assert_eq!(c.rot, Dir::Left);
    assert_eq!(inv.copper, 97);
}

#[test]
fn demolish_refunds_half_but_spares_the_core() {
    let mut map = blank();
    let mut inv = Inventory { copper: 0, lead: 0 };
    map.mark(18, 13, 3, 1, true);
    assert!(!demolish(&mut map, &mut inv, BuildingKind::Core, 18, 13));
    assert!(map.get(19, 14).unwrap().occupied);
    map.mark(2, 2, 1, 5, true);
    assert!(demolish(&mut map, &mut inv, BuildingKind::Scatter, 2, 2));
    assert!(!map.get(2, 2).unwrap().occupied);
    assert_eq!((inv.copper, inv.lead), (20, 12));
}

#[test]
fn waves_grow_by_two() {
    let mut w = WaveCounter::new();
    assert_eq!((w.wave, w.between, w.spawn_queue), (0, true, 0));
    w.start_next_wave();
    assert_eq!((w.wave, w.between, w.spawn_queue), (1, false, 4));
    assert!(!w.settle(0));
    for _ in 0..4 {
        assert!(w.take_spawn());
    }
    assert!(!w.take_spawn());
    assert!(!w.settle(2));
    assert!(w.settle(0));
    assert!(w.between);
    w.start_next_wave();
    assert_eq!(w.spawn_queue, 6);
    w.start_next_wave();
    assert_eq!(w.spawn_queue, 8);
}

#[test]
fn game_over_rules() {
    let mut g = GameOver::new();
    g.update(false, 14, true, 0);
    assert!(!g.done);
    g.update(false, 15, false, 0);
    assert!(!g.done);
    g.update(false, 15, true, 1);
    assert!(!g.done);
    g.update(false, 15, true, 0);
    assert!(g.done && g.won);
    g.update(true, 15, true, 0);
    assert!(g.done && g.won);
    let mut h = GameOver::new();
    h.update(true, 3, false, 5);
    assert!(h.done && !h.won);
    h.update(false, 20, true, 0);
    assert!(h.done && !h.won);
    // a lost core is a defeat even when the last wave is over
    let mut both = GameOver::new();
    both.update(true, 15, true, 0);
    assert!(both.done && !both.won);
}

#[test]
fn spawn_tiles_lie_on_the_border() {
    assert_eq!(edge_tile(0, 7), (7, 29));
    assert_eq!(edge_tile(1, 7), (7, 0));
    assert_eq!(edge_tile(2, 7), (0, 7));
    assert_eq!(edge_tile(3, 7), (39, 7));
    for _ in 0..200 {
        let (x, y) = pick_spawn_tile();
        assert!((0..40).contains(&x) && (0..30).contains(&y));
        assert!(x == 0 || x == 39 || y == 0 || y == 29);
    }
}

#[test]
fn core_footprint_cells() {
    let g = footprint_cells(18, 13, 3);
    assert_eq!(g.len(), 9);
    assert_eq!(g[0], (18, 13));
    assert_eq!(g[8], (20, 15));
    assert!(g.contains(&(19, 14)));
    assert!(footprint_cells(0, 0, 0).is_empty());
}

#[test]
fn blocker_skips_core_and_conveyors() {
    let mut map = blank();
    map.mark(18, 13, 3, 1, true);
    map.mark(5, 5, 1, 2, true);
    map.mark(6, 5, 1, 3, false);
    assert_eq!(blocker(&map, (5, 5), (4, 5), 1), Some(2));
    assert_eq!(blocker(&map, (6, 5), (5, 5), 1), Some(2));
    assert_eq!(blocker(&map, (6, 5), (7, 5), 1), None);
    assert_eq!(blocker(&map, (19, 14), (40, 40), 1), None);
}

#[test]
fn items_go_to_the_first_taker() {
    assert!(accepts(Receiver::Core, ResourceKind::Lead));
    assert!(accepts(Receiver::Belt { empty: true }, ResourceKind::Lead));
    assert!(!accepts(Receiver::Belt { empty: false }, ResourceKind::Lead));
    assert!(accepts(Receiver::Turret { ammo: ResourceKind::Lead }, ResourceKind::Lead));
    assert!(!accepts(Receiver::Turret { ammo: ResourceKind::Copper }, ResourceKind::Lead));
    assert!(!accepts(Receiver::Inert, ResourceKind::Copper));
    let around = vec![
        None,
        Some(Receiver::Turret { ammo: ResourceKind::Copper }),
        Some(Receiver::Belt { empty: true }),
        Some(Receiver::Core),
    ];
    assert_eq!(first_taker(ResourceKind::Copper, &around), Some(1));
    assert_eq!(first_taker(ResourceKind::Lead, &around), Some(2));
    let full = vec![Some(Receiver::Belt { empty: false }), Some(Receiver::Inert), None, None];
    assert_eq!(first_taker(ResourceKind::Lead, &full), None);
}

#[test]
fn magazines_load_and_fire() {
    assert!(Magazine::for_turret(BuildingKind::Wall).is_none());
    let mut m = Magazine::for_turret(BuildingKind::Scatter).unwrap();
    assert_eq!((m.ammo, m.cost, m.kind, m.pellets), (0, 2, ResourceKind::Lead, 3));
    assert!(!m.load(ResourceKind::Copper));
    assert!(m.load(ResourceKind::Lead));
    assert!(!m.fire());
    assert!(m.load(ResourceKind::Lead));
    assert!(m.fire());
    assert_eq!(m.ammo, 0);
    let d = Magazine::for_turret(BuildingKind::Duo).unwrap();
    assert_eq!((d.cost, d.kind, d.pellets), (1, ResourceKind::Copper, 1));
}
