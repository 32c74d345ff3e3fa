use steel_core::combat::{kill_reward, Magazine, KILL_COPPER, KILL_LEAD};
use steel_core::config::{BuildingKind, ResourceKind};
use steel_core::logistics::{belt_moves_fit, move_belt_items, BeltTarget};
use steel_core::map::Inventory;

use ResourceKind::{Copper, Lead};

fn duo() -> Magazine {
    Magazine::for_turret(BuildingKind::Duo).unwrap()
}

fn scatter() -> Magazine {
    Magazine::for_turret(BuildingKind::Scatter).unwrap()
}

/// Units of `k` on the conveyors, in the magazines and in stock.
fn total(items: &[Option<ResourceKind>], mags: &[Magazine], inv: &Inventory, k: ResourceKind) -> u64 {
    let on_belts = items.iter().filter(|i| **i == Some(k)).count() as u64;
    let loaded: u64 = mags.iter().filter(|m| m.kind == k).map(|m| m.ammo as u64).sum();
    let stock = match k {
        Copper => inv.copper,
        Lead => inv.lead,
    } as u64;
    on_belts + loaded + stock
}

#[test]
fn conveyor_hands_items_to_the_core() {
    let mut items = vec![Some(Copper), Some(Lead)];
    let mut mags: Vec<Magazine> = vec![];
    let mut inv = Inventory { copper: 5, lead: 0 };
    let movers = vec![(0, BeltTarget::Core), (1, BeltTarget::Core)];
    assert!(belt_moves_fit(&items, &mags, &inv, &movers));
    let moved = move_belt_items(&mut items, &mut mags, &mut inv, &movers);
    assert_eq!(moved, vec![true, true]);
    assert_eq!(items, vec![None, None]);
    assert_eq!((inv.copper, inv.lead), (6, 1));
}

#[test]
fn an_emptied_conveyor_takes_a_later_item() {
    // belt 0 empties into the core first, then belt 1 refills it
    let mut items = vec![Some(Copper), Some(Lead), None];
    let mut mags: Vec<Magazine> = vec![];
    let mut inv = Inventory { copper: 0, lead: 0 };
    let movers = vec![(0, BeltTarget::Core), (1, BeltTarget::Belt(0))];
    let moved = move_belt_items(&mut items, &mut mags, &mut inv, &movers);
    assert_eq!(moved, vec![true, true]);
    assert_eq!(items, vec![Some(Lead), None, None]);
    assert_eq!((inv.copper, inv.lead), (1, 0));
}

#[test]
fn a_full_conveyor_holds_the_item_back() {
    // the same two movers in the other order: belt 0 is still full
    let mut items = vec![Some(Copper), Some(Lead)];
    let mut mags: Vec<Magazine> = vec![];
    let mut inv = Inventory { copper: 0, lead: 0 };
    let movers = vec![(1, BeltTarget::Belt(0)), (0, BeltTarget::Core)];
    let moved = move_belt_items(&mut items, &mut mags, &mut inv, &movers);
    assert_eq!(moved, vec![false, true]);
    assert_eq!(items, vec![None, Some(Lead)]);
    assert_eq!((inv.copper, inv.lead), (1, 0));
}

#[test]
fn turrets_take_only_their_ammunition() {
    let mut items = vec![Some(Copper), Some(Lead), Some(Copper), Some(Lead)];
    let mut mags = vec![duo(), scatter()];
    let mut inv = Inventory { copper: 0, lead: 0 };
    let movers = vec![
        (0, BeltTarget::Turret(0)),
        (1, BeltTarget::Turret(0)),
        (2, BeltTarget::Turret(1)),
        (3, BeltTarget::Turret(1)),
    ];
    let moved = move_belt_items(&mut items, &mut mags, &mut inv, &movers);
    assert_eq!(moved, vec![true, false, false, true]);
    assert_eq!(items, vec![None, Some(Lead), Some(Copper), None]);
    assert_eq!((mags[0].ammo, mags[1].ammo), (1, 1));
    assert_eq!((inv.copper, inv.lead), (0, 0));
}

#[test]
fn nothing_ahead_keeps_the_item() {
    let mut items = vec![Some(Copper)];
    let mut mags: Vec<Magazine> = vec![];
    let mut inv = Inventory { copper: 0, lead: 0 };
    let moved = move_belt_items(&mut items, &mut mags, &mut inv, &vec![(0, BeltTarget::Nothing)]);
    assert_eq!(moved, vec![false]);
    assert_eq!(items, vec![Some(Copper)]);
    assert_eq!((inv.copper, inv.lead), (0, 0));
}

#[test]
fn conveyors_neither_make_nor_lose_items() {
    let mut items = vec![Some(Copper), Some(Lead), None, Some(Copper), Some(Lead), Some(Lead)];
    let mut mags = vec![duo(), scatter()];
    mags[0].ammo = 3;
    let mut inv = Inventory { copper: 10, lead: 4 };
    let movers = vec![
        (0, BeltTarget::Belt(2)),
        (1, BeltTarget::Core),
        (3, BeltTarget::Turret(0)),
        (4, BeltTarget::Belt(1)),
        (5, BeltTarget::Turret(0)),
    ];
    let before = (total(&items, &mags, &inv, Copper), total(&items, &mags, &inv, Lead));
    let moved = move_belt_items(&mut items, &mut mags, &mut inv, &movers);
    assert_eq!(moved, vec![true, true, true, true, false]);
    assert_eq!(items, vec![None, Some(Lead), Some(Copper), None, None, Some(Lead)]);
    assert_eq!(mags[0].ammo, 4);
    assert_eq!((inv.copper, inv.lead), (10, 5));
    let after = (total(&items, &mags, &inv, Copper), total(&items, &mags, &inv, Lead));
    assert_eq!(before, after);
}

#[test]
fn belt_moves_fit_spots_overflow() {
    let items = vec![Some(Copper), Some(Lead)];
    let full = Inventory { copper: u32::MAX, lead: 0 };
    let mags: Vec<Magazine> = vec![];
    assert!(!belt_moves_fit(&items, &mags, &full, &vec![(0, BeltTarget::Core)]));
    assert!(belt_moves_fit(&items, &mags, &full, &vec![(1, BeltTarget::Core)]));
    assert!(belt_moves_fit(&items, &mags, &full, &vec![(0, BeltTarget::Nothing)]));
    let mut loaded = duo();
    loaded.ammo = u32::MAX;
    let none = Inventory { copper: 0, lead: 0 };
    assert!(!belt_moves_fit(&items, &vec![loaded], &none, &vec![(0, BeltTarget::Turret(0))]));
    // a turret that refuses the item cannot overflow
    assert!(belt_moves_fit(&items, &vec![loaded], &none, &vec![(1, BeltTarget::Turret(0))]));
}

#[test]
fn kills_pay_copper_and_sometimes_lead() {
    assert_eq!((KILL_COPPER, KILL_LEAD), (2, 1));
    let mut inv = Inventory { copper: 7, lead: 3 };
    kill_reward(&mut inv, false);
    assert_eq!((inv.copper, inv.lead), (9, 3));
    kill_reward(&mut inv, true);
    assert_eq!((inv.copper, inv.lead), (11, 4));
}
