//! Choosing, placing and demolishing buildings.
use vstd::prelude::*;

use crate::config::{spec_selectable, BuildingKind, Dir};
use crate::map::{in_rect, GameMap, Inventory};

verus! {

/// What the player is about to build and how.
pub struct BuildMode {
    pub selected: Option<BuildingKind>,
    pub rot: Dir,
    pub last_place: Option<(i32, i32)>,
}

/// A building the player has just paid for, to be put at `(tx, ty)`.
pub struct Placement {
    pub kind: BuildingKind,
    pub tx: i32,
    pub ty: i32,
    pub rot: Dir,
}

/// Position of `k` in the build bar, if it is there.
pub open spec fn spec_slot_of(k: BuildingKind) -> Option<int> {
    match k {
        BuildingKind::Drill => Some(0),
        BuildingKind::Conveyor => Some(1),
        BuildingKind::Wall => Some(2),
        BuildingKind::Duo => Some(3),
        BuildingKind::Scatter => Some(4),
        BuildingKind::Core => None,
    }
}

/// The selection after pressing the cycle key: the next entry of the build bar,
/// wrapping around; the first entry when nothing from the bar is selected.
pub open spec fn spec_cycle(sel: Option<BuildingKind>) -> BuildingKind {
    match sel {
        Some(k) => match spec_slot_of(k) {
            Some(i) => spec_selectable()[(i + 1) % 5],
            None => spec_selectable()[0],
        },
        None => spec_selectable()[0],
    }
}

/// The site may take `kind`: the footprint is free and on the map, a drill stands
/// on ore, and the stock covers the price.
pub open spec fn spec_placement_ok(
    map: &GameMap,
    inv: &Inventory,
    kind: BuildingKind,
    x: int,
    y: int,
) -> bool {
    &&& map.spec_can_place(x, y, kind.spec_size() as int, kind is Drill)
    &&& kind is Drill ==> map.tile(x, y).ore is Some
    &&& inv.spec_can_afford(kind)
}

/// Only a drill needs ore. Any other building may go where its whole footprint
/// lies on the map with no cell occupied and the stock covers each part of its
/// price; a drill needs, besides, ore on its cell.
pub proof fn lemma_only_drills_need_ore(map: &GameMap, inv: &Inventory, kind: BuildingKind, x: int, y: int)
    ensures
        !(kind is Drill) ==> (spec_placement_ok(map, inv, kind, x, y) <==> {
            &&& 0 <= x && x + kind.spec_size() <= map.w
            &&& 0 <= y && y + kind.spec_size() <= map.h
            &&& forall|a: int, b: int|
                #![trigger map.tile(a, b)]
                in_rect(a, b, x, y, kind.spec_size() as int) ==> !map.tile(a, b).occupied
            &&& inv.copper >= kind.spec_cost().0
            &&& inv.lead >= kind.spec_cost().1
        }),
        kind is Drill ==> (spec_placement_ok(map, inv, kind, x, y) <==> {
            &&& 0 <= x && x + 1 <= map.w
            &&& 0 <= y && y + 1 <= map.h
            &&& !map.tile(x, y).occupied
            &&& map.tile(x, y).ore is Some
            &&& inv.copper >= kind.spec_cost().0
            &&& inv.lead >= kind.spec_cost().1
        }),
{
    if kind is Drill {
        if map.tile(x, y).ore is Some {
            assert(in_rect(x, y, x, y, 1));
        }
        if !map.tile(x, y).occupied {
            assert forall|a: int, b: int| #![trigger map.tile(a, b)] in_rect(a, b, x, y, 1) implies !map.tile(
                a,
                b,
            ).occupied by {
                assert(a == x && b == y);
            }
        }
        if map.spec_can_place(x, y, 1, true) {
            assert(in_rect(x, y, x, y, 1));
            assert(!map.tile(x, y).occupied);
        }
    }
}

/// No arithmetic overflow when checking a footprint of `kind` at `(x, y)`.
pub open spec fn footprint_fits(map: &GameMap, kind: BuildingKind, x: int, y: int) -> bool {
    &&& x < 0 || y < 0 || x + kind.spec_size() <= i32::MAX
    &&& x < 0 || y < 0 || x + kind.spec_size() > map.w || y + kind.spec_size() <= i32::MAX
}

/// Whether `kind` may be built at `(x, y)` right now.
pub fn placement_ok(map: &GameMap, inv: &Inventory, kind: BuildingKind, x: i32, y: i32) -> (r: bool)
    requires
        map.wf(),
        footprint_fits(map, kind, x as int, y as int),
    ensures
        r == spec_placement_ok(map, inv, kind, x as int, y as int),
        !(kind is Drill) ==> r == (map.spec_can_place(x as int, y as int, kind.spec_size() as int, false)
            && inv.spec_can_afford(kind)),
{
    let require_ore = kind == BuildingKind::Drill;
    let fits = map.can_place(x, y, kind.size(), require_ore);
    let ore_ok = !require_ore || match map.get(x, y) {
        Some(t) => t.ore.is_some(),
        None => false,
    };
    proof {
        if fits {
            assert(map.spec_in_bounds(x as int, y as int));
        }
    }
    fits && inv.can_afford(kind) && ore_ok
}

impl BuildMode {
    /// Nothing selected, facing right, nothing placed yet.
    pub fn new() -> (m: BuildMode)
        ensures
            m == (BuildMode { selected: None, rot: Dir::Right, last_place: None }),
    {
        BuildMode { selected: None, rot: Dir::Right, last_place: None }
    }

    /// Selects entry `slot` of the build bar; slots past the bar change nothing.
    pub fn select_slot(&mut self, slot: usize)
        ensures
            slot < 5 ==> final(self).selected == Some(spec_selectable()[slot as int]),
            slot >= 5 ==> final(self).selected == old(self).selected,
            final(self).rot == old(self).rot,
            final(self).last_place == old(self).last_place,
    {
        let kinds = BuildingKind::selectable();
        if slot < kinds.len() {
            self.selected = Some(kinds[slot]);
        }
    }

    /// Drops the selection.
    pub fn cancel(&mut self)
        ensures
            final(self).selected is None,
            final(self).rot == old(self).rot,
            final(self).last_place == old(self).last_place,
    {
        self.selected = None;
    }

    /// Moves the selection to the next entry of the build bar.
    pub fn cycle(&mut self)
        ensures
            final(self).selected == Some(spec_cycle(old(self).selected)),
            final(self).rot == old(self).rot,
            final(self).last_place == old(self).last_place,
    {
        let kinds = BuildingKind::selectable();
        let mut next: usize = 0;
        if let Some(s) = self.selected {
            let mut i: usize = 0;
            while i < kinds.len()
                invariant_except_break
                    next == 0,
                invariant
                    kinds@ == spec_selectable(),
                    i <= 5,
                    forall|j: int| 0 <= j < i ==> kinds@[j] != s,
                ensures
                    match spec_slot_of(s) {
                        Some(k) => next == (k + 1) % 5,
                        None => next == 0,
                    },
                decreases 5 - i,
            {
                if kinds[i] == s {
                    next = (i + 1) % kinds.len();
                    break;
                }
                proof {
                    match spec_slot_of(s) {
                        Some(k) => {
                            if k == i {
                                assert(kinds@[k] == s);
                            }
                        },
                        None => {},
                    }
                }
                i = i + 1;
            }
        }
        self.selected = Some(kinds[next]);
    }

    /// Turns the building direction a quarter turn clockwise.
    pub fn rotate(&mut self)
        ensures
            final(self).rot == old(self).rot.spec_next(),
            final(self).selected == old(self).selected,
            final(self).last_place == old(self).last_place,
    {
        self.rot = self.rot.next();
    }

    /// The direction a conveyor dragged onto `(x, y)` takes from the previous
    /// placement, if any.
    pub open spec fn spec_drag_rot(&self, kind: BuildingKind, x: int, y: int) -> Option<Dir> {
        match self.last_place {
            Some(lp) => if kind is Conveyor {
                Dir::spec_from_delta(x - lp.0, y - lp.1)
            } else {
                None
            },
            None => None,
        }
    }

    /// The arithmetic that [`BuildMode::click`] performs on these inputs does
    /// not overflow: it only computes when the game runs, the button is held
    /// and the cell is new.
    pub open spec fn click_fits(&self, map: &GameMap, x: int, y: int, pressed: bool, game_over: bool) -> bool {
        match self.selected {
            Some(kind) => !game_over && pressed && self.last_place != Some((x as i32, y as i32)) ==> {
                &&& footprint_fits(map, kind, x, y)
                &&& kind is Conveyor ==> match self.last_place {
                    Some(lp) => i32::MIN < x - lp.0 <= i32::MAX && i32::MIN < y - lp.1 <= i32::MAX,
                    None => true,
                }
            },
            None => true,
        }
    }

    /// One frame of the build button: with a building selected and the button
    /// held over a new cell, the building is paid for and reported for placement
    /// if the site takes it. Dragging a conveyor turns it (and the build
    /// direction) towards the drag.
    pub fn click(
        &mut self,
        map: &GameMap,
        inv: &mut Inventory,
        x: i32,
        y: i32,
        pressed: bool,
        game_over: bool,
    ) -> (r: Option<Placement>)
        requires
            map.wf(),
            old(self).click_fits(map, x as int, y as int, pressed, game_over),
        ensures
            game_over ==> r is None && *final(self) == *old(self) && *final(inv) == *old(inv),
            !game_over && (old(self).selected is None || !pressed) ==> {
                &&& r is None
                &&& final(self).last_place is None
                &&& final(self).selected == old(self).selected
                &&& final(self).rot == old(self).rot
                &&& *final(inv) == *old(inv)
            },
            !game_over && pressed && old(self).selected is Some && old(self).last_place == Some(
                (x, y),
            ) ==> r is None && *final(self) == *old(self) && *final(inv) == *old(inv),
            !game_over && pressed && old(self).last_place != Some((x, y)) ==> match old(
                self,
            ).selected {
                Some(kind) => {
                    let rot = match old(self).spec_drag_rot(kind, x as int, y as int) {
                        Some(d) => d,
                        None => old(self).rot,
                    };
                    &&& final(self).selected == old(self).selected
                    &&& final(self).rot == rot
                    &&& spec_placement_ok(map, old(inv), kind, x as int, y as int) ==> {
                        &&& r == Some(Placement { kind, tx: x, ty: y, rot })
                        &&& final(self).last_place == Some((x, y))
                        &&& final(inv).copper == old(inv).copper - kind.spec_cost().0
                        &&& final(inv).lead == old(inv).lead - kind.spec_cost().1
                    }
                    &&& !spec_placement_ok(map, old(inv), kind, x as int, y as int) ==> {
                        &&& r is None
                        &&& final(self).last_place == old(self).last_place
                        &&& *final(inv) == *old(inv)
                    }
                },
                None => true,
            },
    {
        if game_over {
            return None;
        }
        let kind = match self.selected {
            Some(k) => k,
            None => {
                self.last_place = None;
                return None;
            },
        };
        if !pressed {
            self.last_place = None;
            return None;
        }
        match self.last_place {
            Some(lp) => {
                if lp.0 == x && lp.1 == y {
                    return None;
                }
            },
            None => {},
        }
        let mut rot = self.rot;
        if kind == BuildingKind::Conveyor {
            if let Some(lp) = self.last_place {
                if let Some(d) = Dir::from_delta(x - lp.0, y - lp.1) {
                    rot = d;
                    self.rot = d;
                }
            }
        }
        let require_ore = kind == BuildingKind::Drill;
        if !map.can_place(x, y, kind.size(), require_ore) {
            return None;
        }
        proof {
            assert(map.spec_in_bounds(x as int, y as int));
        }
        if kind == BuildingKind::Drill && match map.get(x, y) {
            Some(t) => t.ore.is_none(),
            None => true,
        } {
            return None;
        }
        if !inv.pay(kind) {
            return None;
        }
        self.last_place = Some((x, y));
        Some(Placement { kind, tx: x, ty: y, rot })
    }
}

/// Pressing the cycle key five times brings a build-bar selection back.
pub proof fn lemma_cycle_five_times(k: BuildingKind)
    requires
        spec_slot_of(k) is Some,
    ensures
        spec_cycle(Some(spec_cycle(Some(spec_cycle(Some(spec_cycle(Some(spec_cycle(Some(k)))))))))) == k,
{
}

/// Tears down a building of `kind` whose footprint starts at `(tx, ty)`: its
/// cells are freed and half its price comes back. The core cannot be
/// demolished; then nothing changes and the result is `false`.
pub fn demolish(map: &mut GameMap, inv: &mut Inventory, kind: BuildingKind, tx: i32, ty: i32) -> (r: bool)
    requires
        old(map).wf(),
        !(kind is Core) ==> {
            &&& ty + kind.spec_size() <= i32::MAX
            &&& tx + kind.spec_size() <= i32::MAX
            &&& old(inv).copper + kind.spec_cost().0 / 2 <= u32::MAX
            &&& old(inv).lead + kind.spec_cost().1 / 2 <= u32::MAX
        },
    ensures
        r == !(kind is Core),
        r ==> final(map).rect_written(
            old(map),
            tx as int,
            ty as int,
            kind.spec_size() as int,
            None,
            false,
            false,
        ),
        r ==> final(inv).copper == old(inv).copper + kind.spec_cost().0 / 2 && final(inv).lead
            == old(inv).lead + kind.spec_cost().1 / 2,
        !r ==> *final(map) == *old(map) && *final(inv) == *old(inv),
{
    if kind == BuildingKind::Core {
        return false;
    }
    map.clear(tx, ty, kind.size());
    inv.refund_half(kind);
    true
}

} // verus!
