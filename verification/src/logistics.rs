//! Where an item produced by a drill or carried by a conveyor goes next.
use vstd::prelude::*;

use crate::combat::Magazine;
use crate::config::ResourceKind;
use crate::map::Inventory;

verus! {

/// What stands on a cell next to an item source, as far as taking items goes.
#[derive(Clone, Copy, PartialEq, Eq, Debug, Structural)]
pub enum Receiver {
    /// The core stores every item.
    Core,
    /// A conveyor takes an item when it carries none.
    Belt { empty: bool },
    /// A turret takes the resource it fires.
    Turret { ammo: ResourceKind },
    /// Anything else takes nothing.
    Inert,
}

pub open spec fn spec_accepts(r: Receiver, item: ResourceKind) -> bool {
    match r {
        Receiver::Core => true,
        Receiver::Belt { empty } => empty,
        Receiver::Turret { ammo } => ammo == item,
        Receiver::Inert => false,
    }
}

/// Whether `r` takes `item` now.
pub fn accepts(r: Receiver, item: ResourceKind) -> (b: bool)
    ensures
        b == spec_accepts(r, item),
        r is Core ==> b,
        r matches Receiver::Belt { empty } ==> b == empty,
        r matches Receiver::Turret { ammo } ==> b == (ammo == item),
        r is Inert ==> !b,
{
    match r {
        Receiver::Core => true,
        Receiver::Belt { empty } => empty,
        Receiver::Turret { ammo } => ammo == item,
        Receiver::Inert => false,
    }
}

/// The neighbour `around[i]` exists and takes `item`.
pub open spec fn takes_at(around: Seq<Option<Receiver>>, i: int, item: ResourceKind) -> bool {
    match around[i] {
        Some(r) => spec_accepts(r, item),
        None => false,
    }
}

/// The first neighbour, in the order given, that takes `item`. A drill hands
/// its output to its neighbours in direction order right, down, left, up.
pub fn first_taker(item: ResourceKind, around: &Vec<Option<Receiver>>) -> (r: Option<usize>)
    ensures
        match r {
            Some(i) => i < around@.len() && takes_at(around@, i as int, item) && forall|j: int|
                0 <= j < i ==> !takes_at(around@, j, item),
            None => forall|j: int| 0 <= j < around@.len() ==> !takes_at(around@, j, item),
        },
        forall|i: int|
            0 <= i < around@.len() && around@[i] == Some(Receiver::Core) ==> (r matches Some(f)
                && f <= i),
{
    let mut i: usize = 0;
    while i < around.len()
        invariant
            i <= around@.len(),
            forall|j: int| 0 <= j < i ==> !takes_at(around@, j, item),
        decreases around@.len() - i,
    {
        if let Some(rc) = around[i] {
            if accepts(rc, item) {
                proof {
                    assert forall|c: int|
                        0 <= c < around@.len() && around@[c] == Some(Receiver::Core) implies i <= c by {
                        if c < i {
                            assert(!takes_at(around@, c, item));
                        }
                    }
                }
                return Some(i);
            }
        }
        i = i + 1;
    }
    proof {
        assert forall|c: int|
            0 <= c < around@.len() && around@[c] == Some(Receiver::Core) implies false by {
            assert(!takes_at(around@, c, item));
        }
    }
    None
}

/// The core takes every resource.
pub proof fn lemma_core_takes_every_item(k: ResourceKind)
    ensures
        spec_accepts(Receiver::Core, k),
        forall|around: Seq<Option<Receiver>>, i: int|
            0 <= i < around.len() && around[i] == Some(Receiver::Core) ==> #[trigger] takes_at(
                around,
                i,
                k,
            ),
{
}

/// An empty conveyor takes any item and a full one takes none; a turret takes
/// exactly the resource it fires; anything else takes nothing.
pub proof fn lemma_who_takes_what(k: ResourceKind, ammo: ResourceKind)
    ensures
        spec_accepts(Receiver::Belt { empty: true }, k),
        !spec_accepts(Receiver::Belt { empty: false }, k),
        spec_accepts(Receiver::Turret { ammo }, k) <==> ammo == k,
        !spec_accepts(Receiver::Inert, k),
{
}

/// Where the item at the head of a full conveyor goes: the core, another
/// conveyor or a turret (by index in the lists handed to
/// [`move_belt_items`]), or nowhere.
#[derive(Clone, Copy, PartialEq, Eq, Debug, Structural)]
pub enum BeltTarget {
    Core,
    Belt(usize),
    Turret(usize),
    Nothing,
}

/// Units of `k` in the stock.
pub open spec fn spec_stock(inv: Inventory, k: ResourceKind) -> int {
    match k {
        ResourceKind::Copper => inv.copper as int,
        ResourceKind::Lead => inv.lead as int,
    }
}

/// The stock with one more unit of `k`.
pub open spec fn spec_add_one(inv: Inventory, k: ResourceKind) -> Inventory {
    match k {
        ResourceKind::Copper => Inventory { copper: (inv.copper + 1) as u32, lead: inv.lead },
        ResourceKind::Lead => Inventory { copper: inv.copper, lead: (inv.lead + 1) as u32 },
    }
}

/// Conveyor contents, magazines and stock after handing one item on.
pub type BeltWorld = (Seq<Option<ResourceKind>>, Seq<Magazine>, Inventory);

/// One conveyor `m.0` tries to hand its item to `m.1`. The core always takes
/// it; an empty conveyor takes it; a turret takes the resource it fires. When
/// the item is taken, the conveyor is emptied. The flag tells whether it moved.
pub open spec fn spec_belt_step(w: BeltWorld, m: (usize, BeltTarget)) -> (BeltWorld, bool) {
    let (items, mags, inv) = w;
    let i = m.0 as int;
    match items[i] {
        None => (w, false),
        Some(k) => match m.1 {
            BeltTarget::Core => ((items.update(i, None), mags, spec_add_one(inv, k)), true),
            BeltTarget::Belt(j) => if items[j as int] is None {
                ((items.update(j as int, Some(k)).update(i, None), mags, inv), true)
            } else {
                (w, false)
            },
            BeltTarget::Turret(j) => if mags[j as int].kind == k {
                let mg = mags[j as int];
                (
                    (
                        items.update(i, None),
                        mags.update(
                            j as int,
                            Magazine {
                                ammo: (mg.ammo + 1) as u32,
                                cost: mg.cost,
                                kind: mg.kind,
                                pellets: mg.pellets,
                            },
                        ),
                        inv,
                    ),
                    true,
                )
            } else {
                (w, false)
            },
            BeltTarget::Nothing => (w, false),
        },
    }
}

/// A conveyor item aimed at a turret that fires that resource always moves,
/// whatever the turret already holds: the conveyor empties, the turret gains
/// one round, and nothing else changes.
pub proof fn lemma_turret_takes_its_ammo(w: BeltWorld, i: usize, j: usize, k: ResourceKind)
    requires
        i < w.0.len(),
        j < w.1.len(),
        w.0[i as int] == Some(k),
        w.1[j as int].kind == k,
        w.1[j as int].ammo < u32::MAX,
    ensures
        ({
            let (next, moved) = spec_belt_step(w, (i, BeltTarget::Turret(j)));
            &&& moved
            &&& next.0 == w.0.update(i as int, None)
            &&& next.1.len() == w.1.len()
            &&& next.1[j as int].ammo == w.1[j as int].ammo + 1
            &&& next.1[j as int].kind == k
            &&& next.1[j as int].cost == w.1[j as int].cost
            &&& next.1[j as int].pellets == w.1[j as int].pellets
            &&& forall|x: int| 0 <= x < w.1.len() && x != j ==> next.1[x] == w.1[x]
            &&& next.2 == w.2
        }),
{
}

/// A turret refuses an item of another resource, and the item stays put.
pub proof fn lemma_turret_refuses_other_ammo(w: BeltWorld, i: usize, j: usize, k: ResourceKind)
    requires
        i < w.0.len(),
        j < w.1.len(),
        w.0[i as int] == Some(k),
        w.1[j as int].kind != k,
    ensures
        spec_belt_step(w, (i, BeltTarget::Turret(j))) == (w, false),
{
}

/// The core always takes a conveyor's item: the conveyor empties and the stock
/// of that resource grows by one.
pub proof fn lemma_core_takes_belt_item(w: BeltWorld, i: usize, k: ResourceKind)
    requires
        i < w.0.len(),
        w.0[i as int] == Some(k),
        spec_stock(w.2, k) < u32::MAX,
    ensures
        ({
            let (next, moved) = spec_belt_step(w, (i, BeltTarget::Core));
            &&& moved
            &&& next.0 == w.0.update(i as int, None)
            &&& next.1 == w.1
            &&& spec_stock(next.2, k) == spec_stock(w.2, k) + 1
            &&& forall|o: ResourceKind| o != k ==> spec_stock(next.2, o) == spec_stock(w.2, o)
        }),
{
}

/// A conveyor item moves onto an empty conveyor and stays behind a full one.
pub proof fn lemma_belt_to_belt(w: BeltWorld, i: usize, j: usize, k: ResourceKind)
    requires
        i < w.0.len(),
        j < w.0.len(),
        i != j,
        w.0[i as int] == Some(k),
    ensures
        w.0[j as int] is None ==> spec_belt_step(w, (i, BeltTarget::Belt(j))) == (
            (w.0.update(j as int, Some(k)).update(i as int, None), w.1, w.2),
            true,
        ),
        w.0[j as int] is Some ==> spec_belt_step(w, (i, BeltTarget::Belt(j))) == (w, false),
{
}

/// Handing the item on does not push a stock or a magazine past `u32::MAX`.
pub open spec fn spec_step_fits(w: BeltWorld, m: (usize, BeltTarget)) -> bool {
    let (items, mags, inv) = w;
    match items[m.0 as int] {
        None => true,
        Some(k) => match m.1 {
            BeltTarget::Core => spec_stock(inv, k) < u32::MAX,
            BeltTarget::Turret(j) => mags[j as int].kind == k ==> mags[j as int].ammo < u32::MAX,
            _ => true,
        },
    }
}

/// The first `n` movers handed on in order: the world after them, and for
/// each whether its item moved.
pub open spec fn spec_belt_run(w: BeltWorld, movers: Seq<(usize, BeltTarget)>, n: nat) -> (
    BeltWorld,
    Seq<bool>,
)
    decreases n,
{
    if n == 0 {
        (w, seq![])
    } else {
        let prev = spec_belt_run(w, movers, (n - 1) as nat);
        let next = spec_belt_step(prev.0, movers[n - 1]);
        (next.0, prev.1.push(next.1))
    }
}

/// None of the first `n` steps overflows.
pub open spec fn spec_belt_run_fits(w: BeltWorld, movers: Seq<(usize, BeltTarget)>, n: nat) -> bool
    decreases n,
{
    n == 0 || (spec_belt_run_fits(w, movers, (n - 1) as nat) && spec_step_fits(
        spec_belt_run(w, movers, (n - 1) as nat).0,
        movers[n - 1],
    ))
}

/// Every mover names a conveyor in the list, and its target a conveyor or
/// turret in the lists.
pub open spec fn movers_valid(n_items: int, n_mags: int, movers: Seq<(usize, BeltTarget)>) -> bool {
    forall|x: int|
        #![trigger movers[x]]
        0 <= x < movers.len() ==> {
            &&& movers[x].0 < n_items
            &&& movers[x].1 matches BeltTarget::Belt(j) ==> j < n_items
            &&& movers[x].1 matches BeltTarget::Turret(j) ==> j < n_mags
        }
}

/// Items of kind `k` riding on conveyors.
pub open spec fn belt_count(items: Seq<Option<ResourceKind>>, k: ResourceKind) -> int
    decreases items.len(),
{
    if items.len() == 0 {
        0
    } else {
        belt_count(items.drop_last(), k) + if items.last() == Some(k) {
            1int
        } else {
            0int
        }
    }
}

/// Rounds held by the magazines that load `k`.
pub open spec fn ammo_total(mags: Seq<Magazine>, k: ResourceKind) -> int
    decreases mags.len(),
{
    if mags.len() == 0 {
        0
    } else {
        ammo_total(mags.drop_last(), k) + if mags.last().kind == k {
            mags.last().ammo as int
        } else {
            0int
        }
    }
}

/// All units of `k`: on conveyors, in magazines, and in stock.
pub open spec fn resource_total(w: BeltWorld, k: ResourceKind) -> int {
    belt_count(w.0, k) + ammo_total(w.1, k) + spec_stock(w.2, k)
}

proof fn lemma_belt_count_update(
    items: Seq<Option<ResourceKind>>,
    i: int,
    v: Option<ResourceKind>,
    k: ResourceKind,
)
    requires
        0 <= i < items.len(),
    ensures
        belt_count(items.update(i, v), k) == belt_count(items, k) - (if items[i] == Some(k) {
            1int
        } else {
            0int
        }) + (if v == Some(k) {
            1int
        } else {
            0int
        }),
    decreases items.len(),
{
    let u = items.update(i, v);
    if i == items.len() - 1 {
        assert(u.drop_last() =~= items.drop_last());
    } else {
        assert(u.drop_last() =~= items.drop_last().update(i, v));
        lemma_belt_count_update(items.drop_last(), i, v, k);
    }
}

proof fn lemma_ammo_total_update(mags: Seq<Magazine>, j: int, m: Magazine, k: ResourceKind)
    requires
        0 <= j < mags.len(),
    ensures
        ammo_total(mags.update(j, m), k) == ammo_total(mags, k) - (if mags[j].kind == k {
            mags[j].ammo as int
        } else {
            0int
        }) + (if m.kind == k {
            m.ammo as int
        } else {
            0int
        }),
    decreases mags.len(),
{
    let u = mags.update(j, m);
    if j == mags.len() - 1 {
        assert(u.drop_last() =~= mags.drop_last());
    } else {
        assert(u.drop_last() =~= mags.drop_last().update(j, m));
        lemma_ammo_total_update(mags.drop_last(), j, m, k);
    }
}

/// One step keeps the lengths and, when it does not overflow, every total.
proof fn lemma_step_conserves(w: BeltWorld, m: (usize, BeltTarget), k: ResourceKind)
    requires
        movers_valid(w.0.len() as int, w.1.len() as int, seq![m]),
        spec_step_fits(w, m),
    ensures
        spec_belt_step(w, m).0.0.len() == w.0.len(),
        spec_belt_step(w, m).0.1.len() == w.1.len(),
        resource_total(spec_belt_step(w, m).0, k) == resource_total(w, k),
{
    assert(seq![m][0] == m);
    let (items, mags, inv) = w;
    let i = m.0 as int;
    if let Some(item) = items[i] {
        match m.1 {
            BeltTarget::Core => {
                lemma_belt_count_update(items, i, None, k);
            },
            BeltTarget::Belt(j) => {
                if items[j as int] is None {
                    let u = items.update(j as int, Some(item));
                    lemma_belt_count_update(items, j as int, Some(item), k);
                    lemma_belt_count_update(u, i, None, k);
                }
            },
            BeltTarget::Turret(j) => {
                if mags[j as int].kind == item {
                    let mg = mags[j as int];
                    lemma_belt_count_update(items, i, None, k);
                    lemma_ammo_total_update(
                        mags,
                        j as int,
                        Magazine {
                            ammo: (mg.ammo + 1) as u32,
                            cost: mg.cost,
                            kind: mg.kind,
                            pellets: mg.pellets,
                        },
                        k,
                    );
                }
            },
            BeltTarget::Nothing => {},
        }
    }
}

/// A run keeps the lengths, has one flag per mover, and, without overflow,
/// keeps every total.
proof fn lemma_run_conserves(w: BeltWorld, movers: Seq<(usize, BeltTarget)>, n: nat, k: ResourceKind)
    requires
        movers_valid(w.0.len() as int, w.1.len() as int, movers),
        n <= movers.len(),
        spec_belt_run_fits(w, movers, n),
    ensures
        spec_belt_run(w, movers, n).0.0.len() == w.0.len(),
        spec_belt_run(w, movers, n).0.1.len() == w.1.len(),
        spec_belt_run(w, movers, n).1.len() == n,
        resource_total(spec_belt_run(w, movers, n).0, k) == resource_total(w, k),
    decreases n,
{
    if n > 0 {
        lemma_run_conserves(w, movers, (n - 1) as nat, k);
        let prev = spec_belt_run(w, movers, (n - 1) as nat);
        let m = movers[n - 1];
        assert(movers_valid(prev.0.0.len() as int, prev.0.1.len() as int, seq![m])) by {
            assert(seq![m][0] == m);
        }
        lemma_step_conserves(prev.0, m, k);
    }
}

/// A run that fits also fits on every prefix.
proof fn lemma_run_fits_prefix(w: BeltWorld, movers: Seq<(usize, BeltTarget)>, n: nat, p: nat)
    requires
        p <= n,
        spec_belt_run_fits(w, movers, n),
    ensures
        spec_belt_run_fits(w, movers, p),
    decreases n,
{
    if p < n {
        lemma_run_fits_prefix(w, movers, (n - 1) as nat, p);
    }
}

/// Whether handing on the item of conveyor `m.0` stays within `u32`.
fn step_fits(
    items: &Vec<Option<ResourceKind>>,
    mags: &Vec<Magazine>,
    inv: &Inventory,
    m: (usize, BeltTarget),
) -> (r: bool)
    requires
        movers_valid(items@.len() as int, mags@.len() as int, seq![m]),
    ensures
        r == spec_step_fits((items@, mags@, *inv), m),
{
    assert(seq![m][0] == m);
    match items[m.0] {
        None => true,
        Some(k) => match m.1 {
            BeltTarget::Core => match k {
                ResourceKind::Copper => inv.copper < u32::MAX,
                ResourceKind::Lead => inv.lead < u32::MAX,
            },
            BeltTarget::Turret(j) => mags[j].kind != k || mags[j].ammo < u32::MAX,
            _ => true,
        },
    }
}

/// Hands the item of conveyor `m.0` on to `m.1`, as [`spec_belt_step`] says.
fn belt_step(
    items: &mut Vec<Option<ResourceKind>>,
    mags: &mut Vec<Magazine>,
    inv: &mut Inventory,
    m: (usize, BeltTarget),
) -> (moved: bool)
    requires
        movers_valid(old(items)@.len() as int, old(mags)@.len() as int, seq![m]),
        spec_step_fits((old(items)@, old(mags)@, *old(inv)), m),
    ensures
        (final(items)@, final(mags)@, *final(inv)) == spec_belt_step(
            (old(items)@, old(mags)@, *old(inv)),
            m,
        ).0,
        moved == spec_belt_step((old(items)@, old(mags)@, *old(inv)), m).1,
{
    assert(seq![m][0] == m);
    let (i, target) = m;
    let k = match items[i] {
        Some(k) => k,
        None => {
            return false;
        },
    };
    match target {
        BeltTarget::Core => {
            inv.add(k, 1);
            items.set(i, None);
            true
        },
        BeltTarget::Belt(j) => {
            if items[j].is_none() {
                items.set(j, Some(k));
                items.set(i, None);
                true
            } else {
                false
            }
        },
        BeltTarget::Turret(j) => {
            let mut mg = mags[j];
            if mg.load(k) {
                mags.set(j, mg);
                items.set(i, None);
                true
            } else {
                false
            }
        },
        BeltTarget::Nothing => false,
    }
}

/// Whether handing on every mover's item, in order, keeps the stock and the
/// magazines within `u32` (moving them would overflow otherwise).
pub fn belt_moves_fit(
    items: &Vec<Option<ResourceKind>>,
    mags: &Vec<Magazine>,
    inv: &Inventory,
    movers: &Vec<(usize, BeltTarget)>,
) -> (r: bool)
    requires
        movers_valid(items@.len() as int, mags@.len() as int, movers@),
    ensures
        r == spec_belt_run_fits((items@, mags@, *inv), movers@, movers@.len()),
{
    let ghost w0: BeltWorld = (items@, mags@, *inv);
    let mut its: Vec<Option<ResourceKind>> = Vec::new();
    let mut n: usize = 0;
    while n < items.len()
        invariant
            n <= items@.len(),
            its@ == items@.subrange(0, n as int),
        decreases items@.len() - n,
    {
        its.push(items[n]);
        n = n + 1;
        assert(its@ =~= items@.subrange(0, n as int));
    }
    let mut mgs: Vec<Magazine> = Vec::new();
    let mut n: usize = 0;
    while n < mags.len()
        invariant
            n <= mags@.len(),
            mgs@ == mags@.subrange(0, n as int),
        decreases mags@.len() - n,
    {
        mgs.push(mags[n]);
        n = n + 1;
        assert(mgs@ =~= mags@.subrange(0, n as int));
    }
    assert(its@ =~= items@);
    assert(mgs@ =~= mags@);
    let mut iv = *inv;
    let mut x: usize = 0;
    while x < movers.len()
        invariant
            w0 == (items@, mags@, *inv),
            movers_valid(w0.0.len() as int, w0.1.len() as int, movers@),
            x <= movers@.len(),
            spec_belt_run_fits(w0, movers@, x as nat),
            (its@, mgs@, iv) == spec_belt_run(w0, movers@, x as nat).0,
            its@.len() == w0.0.len(),
            mgs@.len() == w0.1.len(),
        decreases movers@.len() - x,
    {
        let m = movers[x];
        proof {
            assert(movers@[x as int] == m);
            assert(movers_valid(its@.len() as int, mgs@.len() as int, seq![m])) by {
                assert(seq![m][0] == m);
            }
        }
        if !step_fits(&its, &mgs, &iv, m) {
            proof {
                assert(!spec_step_fits(spec_belt_run(w0, movers@, x as nat).0, movers@[x as int]));
                assert(!spec_belt_run_fits(w0, movers@, (x + 1) as nat));
                if spec_belt_run_fits(w0, movers@, movers@.len()) {
                    lemma_run_fits_prefix(w0, movers@, movers@.len(), (x + 1) as nat);
                }
            }
            return false;
        }
        belt_step(&mut its, &mut mgs, &mut iv, m);
        proof {
            lemma_step_conserves(spec_belt_run(w0, movers@, x as nat).0, m, ResourceKind::Copper);
        }
        x = x + 1;
    }
    true
}

/// Hands on the items at the heads of full conveyors, mover by mover in the
/// given order (an emptied conveyor may take a later mover's item). Reports
/// for each mover whether its item moved. Items are neither made nor lost:
/// every resource's total over conveyors, magazines and stock is unchanged.
pub fn move_belt_items(
    items: &mut Vec<Option<ResourceKind>>,
    mags: &mut Vec<Magazine>,
    inv: &mut Inventory,
    movers: &Vec<(usize, BeltTarget)>,
) -> (moved: Vec<bool>)
    requires
        movers_valid(old(items)@.len() as int, old(mags)@.len() as int, movers@),
        spec_belt_run_fits((old(items)@, old(mags)@, *old(inv)), movers@, movers@.len()),
    ensures
        (final(items)@, final(mags)@, *final(inv)) == spec_belt_run(
            (old(items)@, old(mags)@, *old(inv)),
            movers@,
            movers@.len(),
        ).0,
        moved@ == spec_belt_run((old(items)@, old(mags)@, *old(inv)), movers@, movers@.len()).1,
        moved@.len() == movers@.len(),
        forall|k: ResourceKind|
            #![trigger resource_total((final(items)@, final(mags)@, *final(inv)), k)]
            resource_total((final(items)@, final(mags)@, *final(inv)), k) == resource_total(
                (old(items)@, old(mags)@, *old(inv)),
                k,
            ),
{
    let ghost w0: BeltWorld = (items@, mags@, *inv);
    let mut moved: Vec<bool> = Vec::new();
    let mut x: usize = 0;
    while x < movers.len()
        invariant
            movers_valid(w0.0.len() as int, w0.1.len() as int, movers@),
            x <= movers@.len(),
            spec_belt_run_fits(w0, movers@, movers@.len()),
            (items@, mags@, *inv) == spec_belt_run(w0, movers@, x as nat).0,
            moved@ == spec_belt_run(w0, movers@, x as nat).1,
            items@.len() == w0.0.len(),
            mags@.len() == w0.1.len(),
        decreases movers@.len() - x,
    {
        let m = movers[x];
        proof {
            assert(movers@[x as int] == m);
            assert(movers_valid(items@.len() as int, mags@.len() as int, seq![m])) by {
                assert(seq![m][0] == m);
            }
            lemma_run_fits_prefix(w0, movers@, movers@.len(), (x + 1) as nat);
            lemma_step_conserves(spec_belt_run(w0, movers@, x as nat).0, m, ResourceKind::Copper);
        }
        let b = belt_step(items, mags, inv, m);
        moved.push(b);
        x = x + 1;
    }
    proof {
        assert forall|k: ResourceKind|
            #![trigger resource_total((items@, mags@, *inv), k)]
            resource_total((items@, mags@, *inv), k) == resource_total(w0, k) by {
            lemma_run_conserves(w0, movers@, movers@.len(), k);
        }
        lemma_run_conserves(w0, movers@, movers@.len(), ResourceKind::Copper);
    }
    moved
}

} // verus!
