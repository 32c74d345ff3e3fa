//! Grid dimensions, building catalogue and directions: the data the rest of
//! the game is driven by.
use vstd::prelude::*;

verus! {

/// Width of the map in tiles.
pub const MAP_W: i32 = 40;

/// Height of the map in tiles.
pub const MAP_H: i32 = 30;

/// A mineable resource.
#[derive(Clone, Copy, PartialEq, Eq, Hash, Debug, Structural)]
pub enum ResourceKind {
    Copper,
    Lead,
}

impl ResourceKind {
    pub open spec fn spec_name(self) -> Seq<char> {
        match self {
            ResourceKind::Copper => "铜"@,
            ResourceKind::Lead => "铅"@,
        }
    }

    /// Display name of the resource.
    pub fn name(self) -> (r: &'static str)
        ensures
            r@ == self.spec_name(),
    {
        match self {
            ResourceKind::Copper => "铜",
            ResourceKind::Lead => "铅",
        }
    }
}

/// Every kind of building the game knows.
#[derive(Clone, Copy, PartialEq, Eq, Hash, Debug, Structural)]
pub enum BuildingKind {
    Core,
    Drill,
    Conveyor,
    Wall,
    Duo,
    Scatter,
}

/// The buildings the player may pick, in hotkey order.
pub open spec fn spec_selectable() -> Seq<BuildingKind> {
    seq![
        BuildingKind::Drill,
        BuildingKind::Conveyor,
        BuildingKind::Wall,
        BuildingKind::Duo,
        BuildingKind::Scatter,
    ]
}

impl BuildingKind {
    /// The buildings the player may pick, in hotkey order (`1` to `5`).
    pub fn selectable() -> (r: [BuildingKind; 5])
        ensures
            r@ == spec_selectable(),
    {
        let r = [
            BuildingKind::Drill,
            BuildingKind::Conveyor,
            BuildingKind::Wall,
            BuildingKind::Duo,
            BuildingKind::Scatter,
        ];
        assert(r@ =~= spec_selectable());
        r
    }

    pub open spec fn spec_name(self) -> Seq<char> {
        match self {
            BuildingKind::Core => "核心"@,
            BuildingKind::Drill => "钻头"@,
            BuildingKind::Conveyor => "传送带"@,
            BuildingKind::Wall => "铜墙"@,
            BuildingKind::Duo => "双管炮"@,
            BuildingKind::Scatter => "散射炮"@,
        }
    }

    /// Display name of the building.
    pub fn name(self) -> (r: &'static str)
        ensures
            r@ == self.spec_name(),
    {
        match self {
            BuildingKind::Core => "核心",
            BuildingKind::Drill => "钻头",
            BuildingKind::Conveyor => "传送带",
            BuildingKind::Wall => "铜墙",
            BuildingKind::Duo => "双管炮",
            BuildingKind::Scatter => "散射炮",
        }
    }

    pub open spec fn spec_size(self) -> i32 {
        match self {
            BuildingKind::Core => 3,
            _ => 1,
        }
    }

    /// Side length of the square footprint, in tiles.
    pub fn size(self) -> (r: i32)
        ensures
            r == self.spec_size(),
    {
        match self {
            BuildingKind::Core => 3,
            _ => 1,
        }
    }

    pub open spec fn spec_solid(self) -> bool {
        !(self is Conveyor)
    }

    /// Whether the building blocks movement: everything but conveyors does.
    pub fn solid(self) -> (r: bool)
        ensures
            r == self.spec_solid(),
    {
        !matches!(self, BuildingKind::Conveyor)
    }

    /// Price as (copper, lead).
    pub open spec fn spec_cost(self) -> (u32, u32) {
        match self {
            BuildingKind::Core => (0, 0),
            BuildingKind::Drill => (12, 0),
            BuildingKind::Conveyor => (1, 0),
            BuildingKind::Wall => (6, 0),
            BuildingKind::Duo => (35, 0),
            BuildingKind::Scatter => (40, 25),
        }
    }

    /// Price as (copper, lead).
    pub fn cost(self) -> (r: (u32, u32))
        ensures
            r == self.spec_cost(),
    {
        match self {
            BuildingKind::Core => (0, 0),
            BuildingKind::Drill => (12, 0),
            BuildingKind::Conveyor => (1, 0),
            BuildingKind::Wall => (6, 0),
            BuildingKind::Duo => (35, 0),
            BuildingKind::Scatter => (40, 25),
        }
    }

    pub open spec fn spec_description(self) -> Seq<char> {
        match self {
            BuildingKind::Core => "必须守护的基地"@,
            BuildingKind::Drill => "在矿脉上开采资源"@,
            BuildingKind::Conveyor => "运输资源到核心/炮塔"@,
            BuildingKind::Wall => "阻挡敌人前进"@,
            BuildingKind::Duo => "消耗铜弹药射击"@,
            BuildingKind::Scatter => "消耗铅弹药散射"@,
        }
    }

    /// One-line description shown in the build hint.
    pub fn description(self) -> (r: &'static str)
        ensures
            r@ == self.spec_description(),
    {
        match self {
            BuildingKind::Core => "必须守护的基地",
            BuildingKind::Drill => "在矿脉上开采资源",
            BuildingKind::Conveyor => "运输资源到核心/炮塔",
            BuildingKind::Wall => "阻挡敌人前进",
            BuildingKind::Duo => "消耗铜弹药射击",
            BuildingKind::Scatter => "消耗铅弹药散射",
        }
    }
}

/// A grid direction. The grid's `y` axis points up.
#[derive(Clone, Copy, PartialEq, Eq, Debug, Structural)]
pub enum Dir {
    Right,
    Down,
    Left,
    Up,
}

pub open spec fn spec_from_index(i: int) -> Dir {
    if i % 4 == 0 {
        Dir::Right
    } else if i % 4 == 1 {
        Dir::Down
    } else if i % 4 == 2 {
        Dir::Left
    } else {
        Dir::Up
    }
}

impl Dir {
    /// Direction number `i` modulo 4, counting clockwise from `Right`.
    pub fn from_index(i: u8) -> (r: Dir)
        ensures
            r == spec_from_index(i as int),
    {
        match i % 4 {
            0 => Dir::Right,
            1 => Dir::Down,
            2 => Dir::Left,
            _ => Dir::Up,
        }
    }

    pub open spec fn spec_index(self) -> u8 {
        match self {
            Dir::Right => 0,
            Dir::Down => 1,
            Dir::Left => 2,
            Dir::Up => 3,
        }
    }

    /// The number of the direction, clockwise from `Right` = 0.
    pub fn index(self) -> (r: u8)
        ensures
            r == self.spec_index(),
    {
        match self {
            Dir::Right => 0,
            Dir::Down => 1,
            Dir::Left => 2,
            Dir::Up => 3,
        }
    }

    pub open spec fn spec_delta(self) -> (i32, i32) {
        match self {
            Dir::Right => (1i32, 0i32),
            Dir::Down => (0i32, -1i32),
            Dir::Left => (-1i32, 0i32),
            Dir::Up => (0i32, 1i32),
        }
    }

    /// The tile offset one step in this direction.
    pub fn delta(self) -> (r: (i32, i32))
        ensures
            r == self.spec_delta(),
    {
        match self {
            Dir::Right => (1, 0),
            Dir::Down => (0, -1),
            Dir::Left => (-1, 0),
            Dir::Up => (0, 1),
        }
    }

    pub open spec fn spec_next(self) -> Dir {
        spec_from_index(self.spec_index() + 1)
    }

    /// The direction a quarter turn clockwise.
    pub fn next(self) -> (r: Dir)
        ensures
            r == self.spec_next(),
    {
        Dir::from_index(self.index() + 1)
    }

    /// The dominant direction of an offset; horizontal wins a tie.
    pub open spec fn spec_from_delta(dx: int, dy: int) -> Option<Dir> {
        if dx == 0 && dy == 0 {
            None
        } else if abs(dx) >= abs(dy) {
            Some(if dx > 0 { Dir::Right } else { Dir::Left })
        } else {
            Some(if dy > 0 { Dir::Up } else { Dir::Down })
        }
    }

    /// The dominant direction of an offset; horizontal wins a tie, and the zero
    /// offset has none.
    pub fn from_delta(dx: i32, dy: i32) -> (r: Option<Dir>)
        requires
            dx > i32::MIN,
            dy > i32::MIN,
        ensures
            r == Dir::spec_from_delta(dx as int, dy as int),
    {
        if dx == 0 && dy == 0 {
            return None;
        }
        let ax: i32 = if dx < 0 { -dx } else { dx };
        let ay: i32 = if dy < 0 { -dy } else { dy };
        if ax >= ay {
            Some(if dx > 0 { Dir::Right } else { Dir::Left })
        } else {
            Some(if dy > 0 { Dir::Up } else { Dir::Down })
        }
    }
}

pub open spec fn abs(v: int) -> int {
    if v < 0 { -v } else { v }
}

/// Four quarter turns bring a direction back to itself.
pub proof fn lemma_four_turns_identity(d: Dir)
    ensures
        d.spec_next().spec_next().spec_next().spec_next() == d,
{
}

/// A direction's number names the direction again.
pub proof fn lemma_index_round_trip(d: Dir)
    ensures
        spec_from_index(d.spec_index() as int) == d,
        d.spec_index() < 4,
{
}

/// Directions repeat every four numbers.
pub proof fn lemma_from_index_period(i: int)
    requires
        0 <= i,
    ensures
        spec_from_index(i + 4) == spec_from_index(i),
        spec_from_index(i).spec_index() == i % 4,
{
}

/// The direction of a direction's own step is that direction.
pub proof fn lemma_from_delta_of_delta(d: Dir)
    ensures
        Dir::spec_from_delta(d.spec_delta().0 as int, d.spec_delta().1 as int) == Some(d),
{
}

/// A quarter turn clockwise maps the step `(dx, dy)` to `(dy, -dx)`.
pub proof fn lemma_next_turns_clockwise(d: Dir)
    ensures
        d.spec_next().spec_delta().0 == d.spec_delta().1,
        d.spec_next().spec_delta().1 == -d.spec_delta().0,
{
}

/// Counts of the wave schedule.
pub struct WaveStats;

impl WaveStats {
    /// Enemies in the first wave.
    pub const BASE_COUNT: i32 = 4;

    /// Extra enemies per later wave.
    pub const COUNT_GROWTH: i32 = 2;

    /// Surviving this many waves wins the game.
    pub const WIN_WAVE: u32 = 15;
}

} // verus!
