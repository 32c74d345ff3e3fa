//! Wave schedule, victory and defeat, enemy spawn points and what stands in an
//! enemy's way.
use vstd::prelude::*;

use rand::Rng;

use crate::config::{BuildingKind, ResourceKind, WaveStats, MAP_H, MAP_W};
use crate::map::{in_rect, GameMap, Inventory};

verus! {

/// Progress through the waves: the current wave number, whether the game is
/// between waves, and how many enemies of the current wave are still to come.
pub struct WaveCounter {
    pub wave: u32,
    pub between: bool,
    pub spawn_queue: i32,
}

/// Enemies in wave `w` (counting from 1).
pub open spec fn spec_wave_size(w: int) -> int {
    WaveStats::BASE_COUNT + (w - 1) * WaveStats::COUNT_GROWTH
}

impl WaveCounter {
    /// Before the first wave.
    pub fn new() -> (r: WaveCounter)
        ensures
            r == (WaveCounter { wave: 0, between: true, spawn_queue: 0 }),
    {
        WaveCounter { wave: 0, between: true, spawn_queue: 0 }
    }

    /// Takes one enemy off the queue of the current wave; `false` when none is left.
    pub fn take_spawn(&mut self) -> (r: bool)
        ensures
            r == (old(self).spawn_queue > 0),
            r ==> final(self).spawn_queue == old(self).spawn_queue - 1,
            !r ==> final(self).spawn_queue == old(self).spawn_queue,
            final(self).wave == old(self).wave,
            final(self).between == old(self).between,
    {
        if self.spawn_queue > 0 {
            self.spawn_queue -= 1;
            true
        } else {
            false
        }
    }

    /// During a wave: once its queue is empty and no enemy is alive, the break
    /// before the next wave begins (`true`). Otherwise nothing changes.
    pub fn settle(&mut self, enemies_alive: usize) -> (r: bool)
        ensures
            r == (!old(self).between && old(self).spawn_queue <= 0 && enemies_alive == 0),
            final(self).between == (old(self).between || r),
            final(self).wave == old(self).wave,
            final(self).spawn_queue == old(self).spawn_queue,
    {
        if !self.between && self.spawn_queue <= 0 && enemies_alive == 0 {
            self.between = true;
            true
        } else {
            false
        }
    }

    /// The break is over: the next wave starts with its full queue (the wave
    /// number read as an `i32` in the count).
    pub fn start_next_wave(&mut self)
        requires
            old(self).wave < u32::MAX,
            i32::MIN < ((old(self).wave + 1) as u32) as i32,
            i32::MIN <= (((old(self).wave + 1) as u32) as i32 - 1) * WaveStats::COUNT_GROWTH <= i32::MAX,
            spec_queue_for((old(self).wave + 1) as u32) <= i32::MAX,
        ensures
            final(self).wave == old(self).wave + 1,
            !final(self).between,
            final(self).spawn_queue == spec_queue_for(final(self).wave),
    {
        self.wave += 1;
        self.between = false;
        self.spawn_queue = WaveStats::BASE_COUNT + (self.wave as i32 - 1) * WaveStats::COUNT_GROWTH;
    }
}

/// The queue a wave starts with, from its number read as an `i32`.
pub open spec fn spec_queue_for(w: u32) -> int {
    WaveStats::BASE_COUNT + ((w as i32) - 1) * WaveStats::COUNT_GROWTH
}

/// For every wave number that fits an `i32`, the queue is the wave's size.
pub proof fn lemma_queue_is_wave_size(w: u32)
    requires
        w <= i32::MAX,
    ensures
        spec_queue_for(w) == spec_wave_size(w as int),
{
}

/// Wave `w` brings two more enemies than wave `w - 1`, and the first brings four.
pub proof fn lemma_wave_growth(w: int)
    requires
        w >= 2,
    ensures
        spec_wave_size(w) == spec_wave_size(w - 1) + 2,
        spec_wave_size(1) == 4,
{
}

/// Whether the game has ended, and how.
pub struct GameOver {
    pub done: bool,
    pub won: bool,
}

/// The win condition: the last wave has been reached, and its break has begun
/// with no enemy left.
pub open spec fn spec_victory(wave: u32, between: bool, enemies_alive: usize) -> bool {
    wave >= WaveStats::WIN_WAVE && between && enemies_alive == 0
}

impl GameOver {
    /// A game in progress.
    pub fn new() -> (r: GameOver)
        ensures
            r == (GameOver { done: false, won: false }),
    {
        GameOver { done: false, won: false }
    }

    /// Ends the game when the core is lost (defeat) or, with the core held, the
    /// win condition holds (victory). The win is tested only while the core
    /// stands, so a lost core is a defeat even in a frame in which the waves are
    /// also over. An ended game stays as it is.
    pub fn update(&mut self, core_lost: bool, wave: u32, between: bool, enemies_alive: usize)
        ensures
            old(self).done ==> *final(self) == *old(self),
            !old(self).done ==> {
                &&& final(self).done == (core_lost || spec_victory(wave, between, enemies_alive))
                &&& !old(self).won ==> final(self).won == (!core_lost && spec_victory(
                    wave,
                    between,
                    enemies_alive,
                ))
                &&& final(self).won == (if core_lost || spec_victory(wave, between, enemies_alive) {
                    !core_lost && spec_victory(wave, between, enemies_alive)
                } else {
                    old(self).won
                })
            },
    {
        if self.done {
            return;
        }
        if core_lost {
            self.done = true;
            self.won = false;
        } else if wave >= WaveStats::WIN_WAVE && between && enemies_alive == 0 {
            self.done = true;
            self.won = true;
        }
    }
}

/// A game reported won by an update was won by holding the core through the
/// waves; a lost core always ends it as a defeat.
pub proof fn lemma_victory_needs_all_waves(
    before: GameOver,
    after: GameOver,
    core_lost: bool,
    wave: u32,
    between: bool,
    enemies_alive: usize,
)
    requires
        !before.done,
        !before.won,
        after.done == (core_lost || spec_victory(wave, between, enemies_alive)),
        after.won == (!core_lost && spec_victory(wave, between, enemies_alive)),
    ensures
        after.won ==> !core_lost && wave >= WaveStats::WIN_WAVE && between && enemies_alive == 0
            && after.done,
        core_lost ==> after.done && !after.won,
{
}

/// Copper gained for each enemy killed.
pub const KILL_COPPER: u32 = 2;

/// Lead gained for a killed enemy that drops lead.
pub const KILL_LEAD: u32 = 1;

/// The loot of one killed enemy: always copper, and lead when the enemy drops
/// it (`lead_drop`, a roll that the caller makes).
pub fn kill_reward(inv: &mut Inventory, lead_drop: bool)
    requires
        old(inv).copper + KILL_COPPER <= u32::MAX,
        lead_drop ==> old(inv).lead + KILL_LEAD <= u32::MAX,
    ensures
        final(inv).copper == old(inv).copper + KILL_COPPER,
        final(inv).lead == old(inv).lead + if lead_drop {
            KILL_LEAD
        } else {
            0
        },
{
    inv.add(ResourceKind::Copper, KILL_COPPER);
    if lead_drop {
        inv.add(ResourceKind::Lead, KILL_LEAD);
    }
}

/// A draw from `0..n` of the thread-local generator (`rand::thread_rng` and
/// `rand::Rng::gen_range`). The contract claims only that the draw lies in the
/// range, which `gen_range` documents; which value comes out is left open.
#[verifier::external_body]
fn random_below(n: i32) -> (r: i32)
    requires
        0 < n,
    ensures
        0 <= r < n,
{
    rand::thread_rng().gen_range(0..n)
}

/// A cell on the map border.
pub open spec fn on_border(c: (i32, i32)) -> bool {
    ||| 0 <= c.0 < MAP_W && (c.1 == MAP_H - 1 || c.1 == 0)
    ||| 0 <= c.1 < MAP_H && (c.0 == 0 || c.0 == MAP_W - 1)
}

/// The spawn cell on border `edge` (0 top, 1 bottom, 2 left, otherwise right)
/// at offset `along` that edge.
pub open spec fn spec_edge_tile(edge: i32, along: i32) -> (i32, i32) {
    if edge == 0 {
        (along, (MAP_H - 1) as i32)
    } else if edge == 1 {
        (along, 0i32)
    } else if edge == 2 {
        (0i32, along)
    } else {
        ((MAP_W - 1) as i32, along)
    }
}

/// The spawn cell on border `edge` (0 top, 1 bottom, 2 left, otherwise right)
/// at offset `along` that edge.
pub fn edge_tile(edge: i32, along: i32) -> (r: (i32, i32))
    ensures
        r == spec_edge_tile(edge, along),
{
    match edge {
        0 => (along, MAP_H - 1),
        1 => (along, 0),
        2 => (0, along),
        _ => (MAP_W - 1, along),
    }
}

/// A random spawn cell: a random border, then a random cell along it.
pub fn pick_spawn_tile() -> (r: (i32, i32))
    ensures
        on_border(r),
        exists|edge: i32, along: i32| r == spec_edge_tile(edge, along) && 0 <= edge < 4,
{
    let edge = random_below(4);
    let along = match edge {
        0 | 1 => random_below(MAP_W),
        _ => random_below(MAP_H),
    };
    let r = edge_tile(edge, along);
    assert(r == spec_edge_tile(edge, along));
    r
}

/// The first `rows` rows of the `w`-wide rectangle at `(tx, ty)`, bottom row
/// first, each row left to right.
pub open spec fn spec_rect_rows(tx: int, ty: int, w: nat, rows: nat) -> Seq<(i32, i32)>
    decreases rows,
{
    if rows == 0 {
        seq![]
    } else {
        spec_rect_rows(tx, ty, w, (rows - 1) as nat) + Seq::new(
            w,
            |i: int| ((tx + i) as i32, (ty + rows - 1) as i32),
        )
    }
}

/// The cells of the square footprint at `(tx, ty)`, bottom row first and each
/// row left to right: the targets enemies march on.
pub fn footprint_cells(tx: i32, ty: i32, size: i32) -> (r: Vec<(i32, i32)>)
    requires
        size <= 0 || (ty + size <= i32::MAX && tx + size <= i32::MAX),
    ensures
        size <= 0 ==> r@.len() == 0,
        size > 0 ==> r@ == spec_rect_rows(tx as int, ty as int, size as nat, size as nat),
        forall|c: (i32, i32)|
            r@.contains(c) <==> in_rect(c.0 as int, c.1 as int, tx as int, ty as int, size as int),
{
    let mut g: Vec<(i32, i32)> = Vec::new();
    if size <= 0 {
        return g;
    }
    let mut y: i32 = ty;
    while y < ty + size
        invariant
            0 < size,
            ty + size <= i32::MAX,
            tx + size <= i32::MAX,
            ty <= y <= ty + size,
            g@ == spec_rect_rows(tx as int, ty as int, size as nat, (y - ty) as nat),
            forall|c: (i32, i32)|
                g@.contains(c) <==> in_rect(c.0 as int, c.1 as int, tx as int, ty as int, size as int)
                    && c.1 < y,
        decreases ty + size - y,
    {
        let ghost rows_before = g@;
        let mut x: i32 = tx;
        while x < tx + size
            invariant
                0 < size,
                ty <= y < ty + size,
                tx + size <= i32::MAX,
                tx <= x <= tx + size,
                g@ == rows_before + Seq::new((x - tx) as nat, |i: int| ((tx + i) as i32, y)),
                forall|c: (i32, i32)|
                    g@.contains(c) <==> in_rect(c.0 as int, c.1 as int, tx as int, ty as int, size as int)
                        && (c.1 < y || (c.1 == y && c.0 < x)),
            decreases tx + size - x,
        {
            let ghost g0 = g@;
            g.push((x, y));
            proof {
                assert(g@ =~= rows_before + Seq::new((x + 1 - tx) as nat, |i: int| ((tx + i) as i32, y)));
                assert forall|c: (i32, i32)| g@.contains(c) <==> g0.contains(c) || c == (x, y) by {
                    if g@.contains(c) {
                        let j = choose|j: int| 0 <= j < g@.len() && g@[j] == c;
                        if j < g0.len() {
                            assert(g0[j] == c);
                        }
                    }
                    if g0.contains(c) {
                        let j = choose|j: int| 0 <= j < g0.len() && g0[j] == c;
                        assert(g@[j] == c);
                    }
                    if c == (x, y) {
                        assert(g@[g0.len() as int] == c);
                    }
                }
                assert forall|c: (i32, i32)|
                    g@.contains(c) <==> in_rect(c.0 as int, c.1 as int, tx as int, ty as int, size as int)
                        && (c.1 < y || (c.1 == y && c.0 < x + 1)) by {
                    assert(g@.contains(c) <==> g0.contains(c) || c == (x, y));
                }
            }
            x = x + 1;
        }
        proof {
            assert(g@ =~= spec_rect_rows(tx as int, ty as int, size as nat, (y + 1 - ty) as nat));
        }
        y = y + 1;
    }
    g
}

/// The solid building other than `core` on cell `c`, if any.
pub open spec fn spec_blocking_at(map: &GameMap, c: (i32, i32), core: u64) -> Option<u64> {
    if map.spec_in_bounds(c.0 as int, c.1 as int) && map.tile(c.0 as int, c.1 as int).solid {
        match map.tile(c.0 as int, c.1 as int).building {
            Some(b) => if b != core {
                Some(b)
            } else {
                None
            },
            None => None,
        }
    } else {
        None
    }
}

/// The building an enemy must break through: the solid non-core building on
/// the cell ahead of it, else the one on its own cell.
pub fn blocker(map: &GameMap, ahead: (i32, i32), here: (i32, i32), core: u64) -> (r: Option<u64>)
    requires
        map.wf(),
    ensures
        r == (match spec_blocking_at(map, ahead, core) {
            Some(b) => Some(b),
            None => spec_blocking_at(map, here, core),
        }),
{
    let cells = [ahead, here];
    let mut i: usize = 0;
    while i < 2
        invariant
            map.wf(),
            cells@ == seq![ahead, here],
            i <= 2,
            forall|j: int| 0 <= j < i ==> spec_blocking_at(map, cells@[j], core) is None,
        decreases 2 - i,
    {
        let (x, y) = cells[i];
        if let Some(t) = map.get(x, y) {
            if t.solid {
                if let Some(b) = t.building {
                    if b != core {
                        return Some(b);
                    }
                }
            }
        }
        i = i + 1;
    }
    None
}

/// A turret's ammunition: rounds held, rounds per shot, the resource it loads,
/// and projectiles per shot.
#[derive(Clone, Copy, Debug)]
pub struct Magazine {
    pub ammo: u32,
    pub cost: u32,
    pub kind: ResourceKind,
    pub pellets: u32,
}

impl Magazine {
    /// The empty magazine of a new turret of `kind`: a duo fires one copper
    /// round per shot, a scatter two lead rounds as three pellets. Other
    /// buildings have none.
    pub fn for_turret(kind: BuildingKind) -> (r: Option<Magazine>)
        ensures
            kind is Duo ==> r == Some(
                Magazine { ammo: 0, cost: 1, kind: ResourceKind::Copper, pellets: 1 },
            ),
            kind is Scatter ==> r == Some(
                Magazine { ammo: 0, cost: 2, kind: ResourceKind::Lead, pellets: 3 },
            ),
            !(kind is Duo) && !(kind is Scatter) ==> r is None,
    {
        match kind {
            BuildingKind::Duo => Some(Magazine { ammo: 0, cost: 1, kind: ResourceKind::Copper, pellets: 1 }),
            BuildingKind::Scatter => Some(Magazine { ammo: 0, cost: 2, kind: ResourceKind::Lead, pellets: 3 }),
            _ => None,
        }
    }

    /// Takes one round of `item` if it is this magazine's resource.
    pub fn load(&mut self, item: ResourceKind) -> (r: bool)
        requires
            item == old(self).kind ==> old(self).ammo < u32::MAX,
        ensures
            r == (item == old(self).kind),
            r ==> final(self).ammo == old(self).ammo + 1,
            !r ==> final(self).ammo == old(self).ammo,
            final(self).cost == old(self).cost,
            final(self).kind == old(self).kind,
            final(self).pellets == old(self).pellets,
    {
        if self.kind == item {
            self.ammo += 1;
            true
        } else {
            false
        }
    }

    /// Spends the rounds of one shot if there are enough.
    pub fn fire(&mut self) -> (r: bool)
        ensures
            r == (old(self).ammo >= old(self).cost),
            r ==> final(self).ammo == old(self).ammo - old(self).cost,
            !r ==> final(self).ammo == old(self).ammo,
            final(self).cost == old(self).cost,
            final(self).kind == old(self).kind,
            final(self).pellets == old(self).pellets,
    {
        if self.ammo < self.cost {
            return false;
        }
        self.ammo -= self.cost;
        true
    }
}

} // verus!
