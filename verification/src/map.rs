//! The tile grid (ore, occupancy, solidity) and the player's stock of resources.
use vstd::prelude::*;

use crate::config::{BuildingKind, ResourceKind, MAP_H, MAP_W};

verus! {

/// One cell of the map. `building` holds the id of the building entity that
/// covers the cell.
#[derive(Clone, Copy, Debug)]
pub struct Tile {
    pub ore: Option<ResourceKind>,
    pub building: Option<u64>,
    pub occupied: bool,
    pub solid: bool,
}

impl Default for Tile {
    fn default() -> (t: Self)
        ensures
            t == (Tile { ore: None, building: None, occupied: false, solid: false }),
    {
        Tile { ore: None, building: None, occupied: false, solid: false }
    }
}

/// `0 <= y * w + x < w * h` for a cell inside a `w` by `h` grid.
pub proof fn lemma_idx_bounds(w: int, h: int, x: int, y: int)
    requires
        0 <= x < w,
        0 <= y < h,
    ensures
        0 <= y * w + x < w * h,
{
    assert(y * w + x < w * h) by (nonlinear_arith)
        requires
            0 <= x < w,
            0 <= y < h,
    ;
    assert(0 <= y * w) by (nonlinear_arith)
        requires
            0 <= x < w,
            0 <= y,
    ;
}

/// Two cells of a grid of width `w` with the same row-major index are the same cell.
pub proof fn lemma_idx_injective(w: int, x1: int, y1: int, x2: int, y2: int)
    requires
        0 <= x1 < w,
        0 <= x2 < w,
        y1 * w + x1 == y2 * w + x2,
    ensures
        x1 == x2,
        y1 == y2,
{
    assert((y1 - y2) * w == x2 - x1) by (nonlinear_arith)
        requires
            y1 * w + x1 == y2 * w + x2,
    ;
    if y1 > y2 {
        assert((y1 - y2) * w >= w) by (nonlinear_arith)
            requires
                y1 - y2 >= 1,
                w > 0,
        ;
    } else if y1 < y2 {
        assert((y2 - y1) * w >= w) by (nonlinear_arith)
            requires
                y2 - y1 >= 1,
                w > 0,
        ;
        assert((y1 - y2) * w == -((y2 - y1) * w)) by (nonlinear_arith);
    }
}

/// The cells kept free of ore around the core's starting place.
pub open spec fn spec_in_core_reserve(x: int, y: int) -> bool {
    17 <= x <= 22 && 12 <= y <= 17
}

/// Whether the cell lies in the ore-free area around the core.
pub fn in_core_reserve(x: i32, y: i32) -> (r: bool)
    ensures
        r == spec_in_core_reserve(x as int, y as int),
{
    17 <= x && x <= 22 && 12 <= y && y <= 17
}

pub open spec fn spec_hash2_bits(x: i32, y: i32) -> u32 {
    let h0 = x.wrapping_mul(374761393i32).wrapping_add(y.wrapping_mul(668265263i32));
    let h1 = (h0 ^ (h0 >> 13u32)).wrapping_mul(1274126177i32);
    (h1 ^ (h1 >> 16u32)) as u32
}

/// The integer hash of a cell that drives ore placement (wrapping `i32`
/// arithmetic, reinterpreted as `u32`).
pub fn hash2_bits(x: i32, y: i32) -> (r: u32)
    ensures
        r == spec_hash2_bits(x, y),
{
    let mut h: i32 = x.wrapping_mul(374761393).wrapping_add(y.wrapping_mul(668265263));
    h = (h ^ (h >> 13)).wrapping_mul(1274126177);
    (h ^ (h >> 16)) as u32
}

/// The playing field: `w * h` tiles in row-major order.
pub struct GameMap {
    pub tiles: Vec<Tile>,
    pub w: i32,
    pub h: i32,
}

/// The cell lies in the `size` by `size` square whose lower-left corner is `(tx, ty)`.
pub open spec fn in_rect(x: int, y: int, tx: int, ty: int, size: int) -> bool {
    tx <= x < tx + size && ty <= y < ty + size
}

impl GameMap {
    /// Dimensions are positive, every index fits an `i32`, and there is one tile per cell.
    pub open spec fn wf(&self) -> bool {
        &&& 0 < self.w
        &&& 0 < self.h
        &&& self.w * self.h <= i32::MAX
        &&& self.tiles@.len() == self.w * self.h
    }

    pub open spec fn spec_in_bounds(&self, x: int, y: int) -> bool {
        0 <= x < self.w && 0 <= y < self.h
    }

    pub open spec fn spec_idx(&self, x: int, y: int) -> int {
        y * self.w + x
    }

    /// The tile at a cell (meaningful for cells in bounds).
    pub open spec fn tile(&self, x: int, y: int) -> Tile {
        self.tiles@[self.spec_idx(x, y)]
    }

    /// Same size, same ore everywhere: only occupancy changed.
    pub open spec fn same_ground(&self, other: &GameMap) -> bool {
        &&& self.w == other.w
        &&& self.h == other.h
        &&& self.tiles@.len() == other.tiles@.len()
        &&& forall|x: int, y: int|
            #![trigger self.tile(x, y)]
            self.spec_in_bounds(x, y) ==> self.tile(x, y).ore == other.tile(x, y).ore
    }

    /// `self` is `old` with `building`, `occupied` and `solid` written into every
    /// on-map cell of the square `[tx, tx + size) x [ty, ty + size)`; ore and all
    /// other cells are as in `old`.
    pub open spec fn rect_written(
        &self,
        old: &GameMap,
        tx: int,
        ty: int,
        size: int,
        building: Option<u64>,
        occupied: bool,
        solid: bool,
    ) -> bool {
        &&& self.wf()
        &&& self.same_ground(old)
        &&& forall|x: int, y: int|
            #![trigger self.tile(x, y)]
            self.spec_in_bounds(x, y) ==> self.tile(x, y) == (if in_rect(x, y, tx, ty, size) {
                Tile { ore: old.tile(x, y).ore, building, occupied, solid }
            } else {
                old.tile(x, y)
            })
    }

    pub proof fn lemma_cell(&self, x: int, y: int)
        requires
            self.wf(),
            self.spec_in_bounds(x, y),
        ensures
            0 <= self.spec_idx(x, y) < self.tiles@.len(),
    {
        lemma_idx_bounds(self.w as int, self.h as int, x, y);
    }

    pub proof fn lemma_cells_distinct(&self, x1: int, y1: int, x2: int, y2: int)
        requires
            self.wf(),
            self.spec_in_bounds(x1, y1),
            self.spec_in_bounds(x2, y2),
            x1 != x2 || y1 != y2,
        ensures
            self.spec_idx(x1, y1) != self.spec_idx(x2, y2),
    {
        if self.spec_idx(x1, y1) == self.spec_idx(x2, y2) {
            lemma_idx_injective(self.w as int, x1, y1, x2, y2);
        }
    }

    /// A fresh `MAP_W` by `MAP_H` map: nothing built, and every cell outside the
    /// core's reserve carries the ore that `ore_at` gives for it.
    pub fn new<F: Fn(i32, i32) -> Option<ResourceKind>>(ore_at: F) -> (m: GameMap)
        requires
            forall|x: i32, y: i32| ore_at.requires((x, y)),
        ensures
            m.wf(),
            m.w == MAP_W,
            m.h == MAP_H,
            forall|x: int, y: int|
                #![trigger m.tile(x, y)]
                m.spec_in_bounds(x, y) ==> {
                    &&& !m.tile(x, y).occupied
                    &&& m.tile(x, y).building is None
                    &&& !m.tile(x, y).solid
                    &&& spec_in_core_reserve(x, y) ==> m.tile(x, y).ore is None
                    &&& !spec_in_core_reserve(x, y) ==> ore_at.ensures(
                        (x as i32, y as i32),
                        m.tile(x, y).ore,
                    )
                },
    {
        let mut tiles: Vec<Tile> = Vec::new();
        let mut y: i32 = 0;
        while y < MAP_H
            invariant
                0 <= y <= MAP_H,
                tiles@.len() == y * 40,
                forall|x: i32, y: i32| ore_at.requires((x, y)),
                forall|xx: int, yy: int|
                    #![trigger tiles@[yy * 40 + xx]]
                    0 <= xx < 40 && 0 <= yy < y ==> {
                        &&& !tiles@[yy * 40 + xx].occupied
                        &&& tiles@[yy * 40 + xx].building is None
                        &&& !tiles@[yy * 40 + xx].solid
                        &&& spec_in_core_reserve(xx, yy) ==> tiles@[yy * 40 + xx].ore is None
                        &&& !spec_in_core_reserve(xx, yy) ==> ore_at.ensures(
                            (xx as i32, yy as i32),
                            tiles@[yy * 40 + xx].ore,
                        )
                    },
            decreases MAP_H - y,
        {
            let mut x: i32 = 0;
            while x < MAP_W
                invariant
                    0 <= y < MAP_H,
                    0 <= x <= MAP_W,
                    tiles@.len() == y * 40 + x,
                    forall|x: i32, y: i32| ore_at.requires((x, y)),
                    forall|xx: int, yy: int|
                        #![trigger tiles@[yy * 40 + xx]]
                        (0 <= xx < 40 && 0 <= yy < y) || (0 <= xx < x && yy == y) ==> {
                            &&& !tiles@[yy * 40 + xx].occupied
                            &&& tiles@[yy * 40 + xx].building is None
                            &&& !tiles@[yy * 40 + xx].solid
                            &&& spec_in_core_reserve(xx, yy) ==> tiles@[yy * 40 + xx].ore is None
                            &&& !spec_in_core_reserve(xx, yy) ==> ore_at.ensures(
                                (xx as i32, yy as i32),
                                tiles@[yy * 40 + xx].ore,
                            )
                        },
                decreases MAP_W - x,
            {
                let ore = if in_core_reserve(x, y) {
                    None
                } else {
                    ore_at(x, y)
                };
                tiles.push(Tile { ore, building: None, occupied: false, solid: false });
                x = x + 1;
            }
            y = y + 1;
        }
        let m = GameMap { tiles, w: MAP_W, h: MAP_H };
        assert forall|x: int, y: int| #![trigger m.tile(x, y)] m.spec_in_bounds(x, y) implies m.spec_idx(
            x,
            y,
        ) == y * 40 + x by {}
        m
    }

    pub(crate) fn idx(&self, x: i32, y: i32) -> (r: Option<usize>)
        requires
            self.wf(),
        ensures
            r == (if self.spec_in_bounds(x as int, y as int) {
                Some(self.spec_idx(x as int, y as int) as usize)
            } else {
                None
            }),
            r matches Some(i) ==> i < self.tiles@.len() && i as int == self.spec_idx(x as int, y as int),
    {
        if x < 0 || y < 0 || x >= self.w || y >= self.h {
            None
        } else {
            proof {
                self.lemma_cell(x as int, y as int);
            }
            Some((y * self.w + x) as usize)
        }
    }

    /// The tile at `(x, y)`, or `None` off the map.
    pub fn get(&self, x: i32, y: i32) -> (r: Option<&Tile>)
        requires
            self.wf(),
        ensures
            r == (if self.spec_in_bounds(x as int, y as int) {
                Some(&self.tile(x as int, y as int))
            } else {
                None
            }),
    {
        proof {
            if self.spec_in_bounds(x as int, y as int) {
                self.lemma_cell(x as int, y as int);
            }
        }
        match self.idx(x, y) {
            Some(i) => Some(&self.tiles[i]),
            None => None,
        }
    }

    /// The tile at `(x, y)` for writing, or `None` off the map.
    pub fn get_mut(&mut self, x: i32, y: i32) -> (r: Option<&mut Tile>)
        requires
            old(self).wf(),
        ensures
            final(self).w == old(self).w,
            final(self).h == old(self).h,
            final(self).tiles@.len() == old(self).tiles@.len(),
            old(self).spec_in_bounds(x as int, y as int) ==> {
                &&& r.is_some()
                &&& *r.unwrap() == old(self).tile(x as int, y as int)
                &&& final(self).tiles@ == old(self).tiles@.update(
                    old(self).spec_idx(x as int, y as int),
                    *final(r.unwrap()),
                )
            },
            !old(self).spec_in_bounds(x as int, y as int) ==> r.is_none() && final(self).tiles@
                == old(self).tiles@,
    {
        proof {
            if old(self).spec_in_bounds(x as int, y as int) {
                old(self).lemma_cell(x as int, y as int);
            }
        }
        match self.idx(x, y) {
            Some(i) => Some(&mut self.tiles[i]),
            None => None,
        }
    }

    /// Whether `(x, y)` lies on the map.
    pub fn in_bounds(&self, x: i32, y: i32) -> (r: bool)
        requires
            self.wf(),
        ensures
            r == self.spec_in_bounds(x as int, y as int),
    {
        self.idx(x, y).is_some()
    }

    /// The building covering `(x, y)`, if the cell is on the map and built on.
    pub open spec fn spec_building_at(&self, x: int, y: int) -> Option<u64> {
        if self.spec_in_bounds(x, y) {
            self.tile(x, y).building
        } else {
            None
        }
    }

    /// The building covering `(x, y)`, if the cell is on the map and built on.
    pub fn building_at(&self, x: i32, y: i32) -> (r: Option<u64>)
        requires
            self.wf(),
        ensures
            r == self.spec_building_at(x as int, y as int),
    {
        match self.get(x, y) {
            Some(t) => t.building,
            None => None,
        }
    }

    /// The ore a drill at `(x, y)` extracts: the cell's ore, copper when it has none.
    pub open spec fn spec_drill_ore(&self, x: int, y: int) -> ResourceKind {
        if self.spec_in_bounds(x, y) && self.tile(x, y).ore is Some {
            self.tile(x, y).ore->Some_0
        } else {
            ResourceKind::Copper
        }
    }

    /// The ore a drill at `(x, y)` extracts: the cell's ore, copper when it has none.
    pub fn drill_ore(&self, x: i32, y: i32) -> (r: ResourceKind)
        requires
            self.wf(),
        ensures
            r == self.spec_drill_ore(x as int, y as int),
            self.spec_in_bounds(x as int, y as int) ==> match self.tile(x as int, y as int).ore {
                Some(k) => r == k,
                None => r == ResourceKind::Copper,
            },
            !self.spec_in_bounds(x as int, y as int) ==> r == ResourceKind::Copper,
    {
        match self.get(x, y) {
            Some(t) => match t.ore {
                Some(o) => o,
                None => ResourceKind::Copper,
            },
            None => ResourceKind::Copper,
        }
    }

    /// The square `[tx, tx + size) x [ty, ty + size)` lies on the map, none of its
    /// cells is occupied, and, when ore is required, one of them has ore.
    pub open spec fn spec_can_place(&self, tx: int, ty: int, size: int, require_ore: bool) -> bool {
        &&& tx >= 0
        &&& ty >= 0
        &&& tx + size <= self.w
        &&& ty + size <= self.h
        &&& forall|x: int, y: int|
            #![trigger self.tile(x, y)]
            in_rect(x, y, tx, ty, size) ==> !self.tile(x, y).occupied
        &&& require_ore ==> exists|x: int, y: int|
            #![trigger self.tile(x, y)]
            in_rect(x, y, tx, ty, size) && self.tile(x, y).ore is Some
    }

    /// Whether a building with a `size` by `size` footprint may stand with its
    /// lower-left corner at `(tx, ty)`.
    pub fn can_place(&self, tx: i32, ty: i32, size: i32, require_ore: bool) -> (r: bool)
        requires
            self.wf(),
            tx < 0 || ty < 0 || tx + size <= i32::MAX,
            tx < 0 || ty < 0 || tx + size > self.w || ty + size <= i32::MAX,
        ensures
            r == self.spec_can_place(tx as int, ty as int, size as int, require_ore),
    {
        if tx < 0 || ty < 0 || tx + size > self.w || ty + size > self.h {
            return false;
        }
        let mut has_ore = false;
        let mut y: i32 = ty;
        while y < ty + size
            invariant
                self.wf(),
                0 <= tx,
                0 <= ty,
                tx + size <= self.w,
                ty + size <= self.h,
                ty <= y,
                y <= ty + size || y == ty,
                forall|xx: int, yy: int|
                    #![trigger self.tile(xx, yy)]
                    in_rect(xx, yy, tx as int, ty as int, size as int) && yy < y ==> !self.tile(
                        xx,
                        yy,
                    ).occupied,
                has_ore <==> exists|xx: int, yy: int|
                    #![trigger self.tile(xx, yy)]
                    in_rect(xx, yy, tx as int, ty as int, size as int) && yy < y && self.tile(
                        xx,
                        yy,
                    ).ore is Some,
            decreases ty + size - y,
        {
            let mut x: i32 = tx;
            while x < tx + size
                invariant
                    self.wf(),
                    0 <= tx,
                    0 <= ty,
                    tx + size <= self.w,
                    ty + size <= self.h,
                    ty <= y < ty + size,
                    tx <= x <= tx + size,
                    forall|xx: int, yy: int|
                        #![trigger self.tile(xx, yy)]
                        in_rect(xx, yy, tx as int, ty as int, size as int) && (yy < y || (yy == y
                            && xx < x)) ==> !self.tile(xx, yy).occupied,
                    has_ore <==> exists|xx: int, yy: int|
                        #![trigger self.tile(xx, yy)]
                        in_rect(xx, yy, tx as int, ty as int, size as int) && (yy < y || (yy == y
                            && xx < x)) && self.tile(xx, yy).ore is Some,
                decreases tx + size - x,
            {
                let t = self.get(x, y).unwrap();
                if t.occupied {
                    return false;
                }
                if t.ore.is_some() {
                    has_ore = true;
                }
                assert(self.tile(x as int, y as int) == *t);
                x = x + 1;
            }
            y = y + 1;
        }
        if require_ore && !has_ore {
            return false;
        }
        true
    }

    /// Writes `building`, `occupied` and `solid` into every cell of the square
    /// that lies on the map; ore stays as it was.
    fn set_rect(
        &mut self,
        tx: i32,
        ty: i32,
        size: i32,
        building: Option<u64>,
        occupied: bool,
        solid: bool,
    )
        requires
            old(self).wf(),
            i32::MIN <= ty + size <= i32::MAX,
            size <= 0 || tx + size <= i32::MAX,
        ensures
            final(self).rect_written(old(self), tx as int, ty as int, size as int, building, occupied, solid),
    {
        let ghost orig = *self;
        let mut y: i32 = ty;
        while y < ty + size
            invariant
                orig.wf(),
                self.wf(),
                self.w == orig.w,
                self.h == orig.h,
                ty <= y,
                y <= ty + size || y == ty,
                i32::MIN <= ty + size <= i32::MAX,
                size <= 0 || tx + size <= i32::MAX,
                forall|xx: int, yy: int|
                    #![trigger self.tile(xx, yy)]
                    self.spec_in_bounds(xx, yy) ==> self.tile(xx, yy) == (if in_rect(
                        xx,
                        yy,
                        tx as int,
                        ty as int,
                        size as int,
                    ) && yy < y {
                        Tile { ore: orig.tile(xx, yy).ore, building, occupied, solid }
                    } else {
                        orig.tile(xx, yy)
                    }),
            decreases ty + size - y,
        {
            let mut x: i32 = tx;
            while x < tx + size
                invariant
                    orig.wf(),
                    self.wf(),
                    self.w == orig.w,
                    self.h == orig.h,
                    ty <= y < ty + size,
                    tx <= x <= tx + size,
                    tx + size <= i32::MAX,
                    forall|xx: int, yy: int|
                        #![trigger self.tile(xx, yy)]
                        self.spec_in_bounds(xx, yy) ==> self.tile(xx, yy) == (if in_rect(
                            xx,
                            yy,
                            tx as int,
                            ty as int,
                            size as int,
                        ) && (yy < y || (yy == y && xx < x)) {
                            Tile { ore: orig.tile(xx, yy).ore, building, occupied, solid }
                        } else {
                            orig.tile(xx, yy)
                        }),
                decreases tx + size - x,
            {
                let ghost before = *self;
                if let Some(t) = self.get_mut(x, y) {
                    t.occupied = occupied;
                    t.building = building;
                    t.solid = solid;
                }
                proof {
                    if before.spec_in_bounds(x as int, y as int) {
                        before.lemma_cell(x as int, y as int);
                        assert(self.tiles@ =~= before.tiles@.update(before.spec_idx(x as int, y as int), self.tiles@[before.spec_idx(x as int, y as int)]));
                    } else {
                        assert(self.tiles@ =~= before.tiles@);
                    }
                }
                proof {
                    assert forall|xx: int, yy: int|
                        #![trigger self.tile(xx, yy)]
                        self.spec_in_bounds(xx, yy) && (xx != x || yy != y) implies self.tile(
                            xx,
                            yy,
                        ) == before.tile(xx, yy) by {
                        if before.spec_in_bounds(x as int, y as int) {
                            before.lemma_cells_distinct(xx, yy, x as int, y as int);
                            before.lemma_cell(xx, yy);
                        }
                    }
                }
                x = x + 1;
            }
            y = y + 1;
        }
    }

    /// Records the building `entity` on every on-map cell of its footprint.
    pub fn mark(&mut self, tx: i32, ty: i32, size: i32, entity: u64, solid: bool)
        requires
            old(self).wf(),
            i32::MIN <= ty + size <= i32::MAX,
            size <= 0 || tx + size <= i32::MAX,
        ensures
            final(self).rect_written(old(self), tx as int, ty as int, size as int, Some(entity), true, solid),
    {
        self.set_rect(tx, ty, size, Some(entity), true, solid);
    }

    /// Frees every on-map cell of the footprint; ore stays.
    pub fn clear(&mut self, tx: i32, ty: i32, size: i32)
        requires
            old(self).wf(),
            i32::MIN <= ty + size <= i32::MAX,
            size <= 0 || tx + size <= i32::MAX,
        ensures
            final(self).rect_written(old(self), tx as int, ty as int, size as int, None, false, false),
    {
        self.set_rect(tx, ty, size, None, false, false);
    }
}

/// The player's stock of resources.
#[derive(Clone, Copy, Debug)]
pub struct Inventory {
    pub copper: u32,
    pub lead: u32,
}

impl Inventory {
    pub open spec fn spec_can_afford(&self, kind: BuildingKind) -> bool {
        self.copper >= kind.spec_cost().0 && self.lead >= kind.spec_cost().1
    }

    /// Whether the stock covers the price of `kind`.
    pub fn can_afford(&self, kind: BuildingKind) -> (r: bool)
        ensures
            r == self.spec_can_afford(kind),
            r == (self.copper >= kind.spec_cost().0 && self.lead >= kind.spec_cost().1),
    {
        let (c, l) = kind.cost();
        self.copper >= c && self.lead >= l
    }

    /// Takes the price of `kind` from the stock if it is covered; reports whether it was.
    pub fn pay(&mut self, kind: BuildingKind) -> (r: bool)
        ensures
            r == old(self).spec_can_afford(kind),
            r ==> final(self).copper == old(self).copper - kind.spec_cost().0 && final(self).lead
                == old(self).lead - kind.spec_cost().1,
            !r ==> *final(self) == *old(self),
    {
        if !self.can_afford(kind) {
            return false;
        }
        let (c, l) = kind.cost();
        self.copper -= c;
        self.lead -= l;
        true
    }

    /// Gives back half the price of `kind`, rounded down.
    pub fn refund_half(&mut self, kind: BuildingKind)
        requires
            old(self).copper + kind.spec_cost().0 / 2 <= u32::MAX,
            old(self).lead + kind.spec_cost().1 / 2 <= u32::MAX,
        ensures
            final(self).copper == old(self).copper + kind.spec_cost().0 / 2,
            final(self).lead == old(self).lead + kind.spec_cost().1 / 2,
    {
        let (c, l) = kind.cost();
        self.copper += c / 2;
        self.lead += l / 2;
    }

    /// Adds `n` units of `res`.
    pub fn add(&mut self, res: ResourceKind, n: u32)
        requires
            res is Copper ==> old(self).copper + n <= u32::MAX,
            res is Lead ==> old(self).lead + n <= u32::MAX,
        ensures
            res is Copper ==> final(self).copper == old(self).copper + n && final(self).lead
                == old(self).lead,
            res is Lead ==> final(self).lead == old(self).lead + n && final(self).copper
                == old(self).copper,
    {
        match res {
            ResourceKind::Copper => self.copper += n,
            ResourceKind::Lead => self.lead += n,
        }
    }
}

/// Building and then demolishing costs the price less its refunded half: after a
/// successful `pay` and a `refund_half` of the same kind, each resource is down by
/// `cost - cost / 2`.
pub proof fn lemma_build_then_demolish_net_cost(
    start: Inventory,
    paid: Inventory,
    refunded: Inventory,
    kind: BuildingKind,
)
    requires
        start.spec_can_afford(kind),
        paid.copper == start.copper - kind.spec_cost().0,
        paid.lead == start.lead - kind.spec_cost().1,
        refunded.copper == paid.copper + kind.spec_cost().0 / 2,
        refunded.lead == paid.lead + kind.spec_cost().1 / 2,
    ensures
        refunded.copper == start.copper - (kind.spec_cost().0 - kind.spec_cost().0 / 2),
        refunded.lead == start.lead - (kind.spec_cost().1 - kind.spec_cost().1 / 2),
        refunded.copper <= start.copper,
        refunded.lead <= start.lead,
{
}

/// Marking a footprint on free ground and then clearing it gives the ground back.
pub proof fn lemma_mark_then_clear_restores(
    m0: GameMap,
    m1: GameMap,
    m2: GameMap,
    tx: int,
    ty: int,
    size: int,
    entity: u64,
    solid: bool,
)
    requires
        m0.wf(),
        forall|x: int, y: int|
            #![trigger m0.tile(x, y)]
            m0.spec_in_bounds(x, y) && in_rect(x, y, tx, ty, size) ==> !m0.tile(x, y).occupied
                && m0.tile(x, y).building is None && !m0.tile(x, y).solid,
        m1.rect_written(&m0, tx, ty, size, Some(entity), true, solid),
        m2.rect_written(&m1, tx, ty, size, None, false, false),
    ensures
        m2.tiles@ == m0.tiles@,
        m2.w == m0.w,
        m2.h == m0.h,
{
    assert forall|i: int| 0 <= i < m0.tiles@.len() implies m2.tiles@[i] == m0.tiles@[i] by {
        let x = i % (m0.w as int);
        let y = i / (m0.w as int);
        assert(0 <= x < m0.w && y * m0.w + x == i && 0 <= y) by (nonlinear_arith)
            requires
                x == i % (m0.w as int),
                y == i / (m0.w as int),
                0 <= i,
                m0.w > 0,
        ;
        assert(y < m0.h) by (nonlinear_arith)
            requires
                y * m0.w + x == i,
                i < m0.w * m0.h,
                0 <= x,
                m0.w > 0,
        ;
        assert(m2.tile(x, y) == m0.tile(x, y));
    }
    assert(m2.tiles@ =~= m0.tiles@);
}

/// After a building is marked on a footprint, nothing can be placed on any square
/// that shares a cell with it.
pub proof fn lemma_marked_blocks_placement(
    m0: GameMap,
    m1: GameMap,
    tx: int,
    ty: int,
    size: int,
    entity: u64,
    solid: bool,
    px: int,
    py: int,
    psize: int,
    require_ore: bool,
    x: int,
    y: int,
)
    requires
        m0.wf(),
        m1.rect_written(&m0, tx, ty, size, Some(entity), true, solid),
        m1.spec_in_bounds(x, y),
        in_rect(x, y, tx, ty, size),
        in_rect(x, y, px, py, psize),
    ensures
        !m1.spec_can_place(px, py, psize, require_ore),
{
    assert(m1.tile(x, y).occupied);
}

/// Once a footprint inside the map is cleared, a building that needs no ore can
/// stand on it again.
pub proof fn lemma_cleared_is_placeable(m0: GameMap, m1: GameMap, tx: int, ty: int, size: int)
    requires
        m0.wf(),
        m1.rect_written(&m0, tx, ty, size, None, false, false),
        tx >= 0,
        ty >= 0,
        tx + size <= m0.w,
        ty + size <= m0.h,
    ensures
        m1.spec_can_place(tx, ty, size, false),
{
    assert forall|x: int, y: int| #![trigger m1.tile(x, y)] in_rect(x, y, tx, ty, size) implies !m1.tile(
        x,
        y,
    ).occupied by {
        assert(m1.spec_in_bounds(x, y));
    }
}

/// A footprint without ore cannot take a building that needs ore.
pub proof fn lemma_ore_required(m: GameMap, tx: int, ty: int, size: int)
    requires
        forall|x: int, y: int|
            #![trigger m.tile(x, y)]
            in_rect(x, y, tx, ty, size) ==> m.tile(x, y).ore is None,
    ensures
        !m.spec_can_place(tx, ty, size, true),
{
}

/// A drill mines the ore of its own cell, and copper where the cell has none
/// or lies off the map.
pub proof fn lemma_drill_mines_its_cell(map: GameMap, x: int, y: int)
    ensures
        map.spec_in_bounds(x, y) && map.tile(x, y).ore is Some ==> map.spec_drill_ore(x, y)
            == map.tile(x, y).ore->Some_0,
        map.spec_in_bounds(x, y) && map.tile(x, y).ore is None ==> map.spec_drill_ore(x, y)
            == ResourceKind::Copper,
        !map.spec_in_bounds(x, y) ==> map.spec_drill_ore(x, y) == ResourceKind::Copper,
{
}

/// The stock covers a building exactly when each resource covers its own part
/// of the price: copper against the copper price, lead against the lead price.
pub proof fn lemma_afford_each_resource(inv: Inventory, kind: BuildingKind)
    ensures
        inv.spec_can_afford(kind) <==> (inv.copper >= kind.spec_cost().0 && inv.lead
            >= kind.spec_cost().1),
        inv.copper >= kind.spec_cost().0 && inv.lead >= kind.spec_cost().1 ==> forall|c: u32, l: u32|
            c >= inv.copper && l >= inv.lead ==> #[trigger] (Inventory { copper: c, lead: l }).spec_can_afford(kind),
{
}

} // verus!
