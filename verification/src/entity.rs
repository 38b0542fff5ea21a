//! The entity store: dense parallel arrays with generational IDs.
//!
//! Two guarantees general-purpose ECS libraries do not make: **iteration
//! order is slot order, always**, and **freed slots are reused in a
//! deterministic order** (lowest index first). Both are required for two
//! machines to produce the same hash.
//!
//! An [`EntityId`] carries a generation so a stale reference to a despawned
//! entity is detected rather than silently pointing at whoever reused the slot.

use vstd::prelude::*;
use crate::fx::{Fx, dec_digits};
use crate::text::push_unsigned;
use crate::hash::{HashState, StateHasher, fnv, le16, le32, le64, le_i32, bool_byte, option_bytes, lemma_fnv_append};
use crate::kinds::resource_index;
use crate::kinds::Resource;
use crate::orders::{Formation, Nav, Order, Production, Stance, order_bytes, stance_code, formation_code};
use crate::vec2::Vec2Fx;

verus! {

/// `b` is `a` with any values written into the columns of live slots: the
/// slot count, liveness, generations, free list and live count unchanged,
/// and every dead slot's row as it was.
pub open spec fn live_writes(a: World, b: World) -> bool {
    &&& b.n() == a.n()
    &&& b.flags() == a.flags()
    &&& b.gens() == a.gens()
    &&& b.free_list() == a.free_list()
    &&& b.live_count() == a.live_count()
    &&& b.kinds().len() == a.kinds().len()
    &&& forall|j: int| 0 <= j < a.n() && !a.flags()[j] ==> #[trigger] b.kinds()[j] == a.kinds()[j]
    &&& b.owners().len() == a.owners().len()
    &&& forall|j: int| 0 <= j < a.n() && !a.flags()[j] ==> #[trigger] b.owners()[j] == a.owners()[j]
    &&& b.positions().len() == a.positions().len()
    &&& forall|j: int| 0 <= j < a.n() && !a.flags()[j] ==> #[trigger] b.positions()[j] == a.positions()[j]
    &&& b.healths().len() == a.healths().len()
    &&& forall|j: int| 0 <= j < a.n() && !a.flags()[j] ==> #[trigger] b.healths()[j] == a.healths()[j]
    &&& b.move_targets().len() == a.move_targets().len()
    &&& forall|j: int| 0 <= j < a.n() && !a.flags()[j] ==> #[trigger] b.move_targets()[j] == a.move_targets()[j]
    &&& b.resources().len() == a.resources().len()
    &&& forall|j: int| 0 <= j < a.n() && !a.flags()[j] ==> #[trigger] b.resources()[j] == a.resources()[j]
    &&& b.facings().len() == a.facings().len()
    &&& forall|j: int| 0 <= j < a.n() && !a.flags()[j] ==> #[trigger] b.facings()[j] == a.facings()[j]
    &&& b.orders().len() == a.orders().len()
    &&& forall|j: int| 0 <= j < a.n() && !a.flags()[j] ==> #[trigger] b.orders()[j] == a.orders()[j]
    &&& b.navs().len() == a.navs().len()
    &&& forall|j: int| 0 <= j < a.n() && !a.flags()[j] ==> #[trigger] b.navs()[j] == a.navs()[j]
    &&& b.carries().len() == a.carries().len()
    &&& forall|j: int| 0 <= j < a.n() && !a.flags()[j] ==> #[trigger] b.carries()[j] == a.carries()[j]
    &&& b.constructions().len() == a.constructions().len()
    &&& forall|j: int| 0 <= j < a.n() && !a.flags()[j] ==> #[trigger] b.constructions()[j] == a.constructions()[j]
    &&& b.productions().len() == a.productions().len()
    &&& forall|j: int| 0 <= j < a.n() && !a.flags()[j] ==> #[trigger] b.productions()[j] == a.productions()[j]
    &&& b.works().len() == a.works().len()
    &&& forall|j: int| 0 <= j < a.n() && !a.flags()[j] ==> #[trigger] b.works()[j] == a.works()[j]
    &&& b.stances().len() == a.stances().len()
    &&& forall|j: int| 0 <= j < a.n() && !a.flags()[j] ==> #[trigger] b.stances()[j] == a.stances()[j]
    &&& b.formations().len() == a.formations().len()
    &&& forall|j: int| 0 <= j < a.n() && !a.flags()[j] ==> #[trigger] b.formations()[j] == a.formations()[j]
    &&& b.reloads().len() == a.reloads().len()
    &&& forall|j: int| 0 <= j < a.n() && !a.flags()[j] ==> #[trigger] b.reloads()[j] == a.reloads()[j]
    &&& b.dyings().len() == a.dyings().len()
    &&& forall|j: int| 0 <= j < a.n() && !a.flags()[j] ==> #[trigger] b.dyings()[j] == a.dyings()[j]
}

/// What [`World::check`] reports for `w`: `Ok` exactly when the store is
/// well formed, and otherwise the first stage that fails, with its details.
pub open spec fn world_verdict(w: World, r: Result<(), WorldViolation>) -> bool {
    &&& (r is Ok <==> w.wf())
    &&& ((r matches Err(WorldViolation::RaggedColumns { .. })) <==> !w.stage_columns())
    &&& (r matches Err(WorldViolation::RaggedColumns { len, expected, .. }) ==> expected == w.n() && len != w.n())
    &&& ((r matches Err(WorldViolation::LiveCountWrong { .. })) <==> (w.stage_columns() && !w.stage_count()))
    &&& (r matches Err(WorldViolation::LiveCountWrong { cached, counted }) ==> cached == w.live_count() && counted == count_true(w.flags()))
    &&& ((r matches Err(WorldViolation::FreeListUnsorted { .. })) <==> (w.stage_count() && !w.stage_sorted()))
    &&& (r matches Err(WorldViolation::FreeListUnsorted { at }) ==> at + 1 < w.free_list().len() && w.free_list()[at as int] <= w.free_list()[at + 1] && forall|k: int| 0 <= k < at ==> #[trigger] w.free_list()[k] > w.free_list()[k + 1])
    &&& (!(r matches Err(WorldViolation::FreeListDuplicate { .. })))
    &&& ((r matches Err(WorldViolation::FreeSlotOutOfRange { .. })) <==> (w.stage_sorted() && w.free_list().len() > 0 && w.free_list()[0] >= w.n()))
    &&& (r matches Err(WorldViolation::FreeSlotOutOfRange { slot }) ==> slot == w.free_list()[0])
    &&& ((r matches Err(WorldViolation::FreeSlotIsLive { .. })) <==> (w.stage_sorted() && (w.free_list().len() == 0 || w.free_list()[0] < w.n()) && !w.stage_free()))
    &&& (r matches Err(WorldViolation::FreeSlotIsLive { slot }) ==> exists|k: int| 0 <= k < w.free_list().len() && w.free_list()[k] == slot && w.flags()[slot as int] && forall|j: int| 0 <= j < k ==> !#[trigger] w.flags()[w.free_list()[j] as int])
    &&& (r matches Err(WorldViolation::SlotLeaked { slot }) ==> w.stage_free() && slot < w.n() && !w.flags()[slot as int] && !w.free_list().contains(slot) && forall|j: int| 0 <= j < slot ==> #[trigger] w.dead_ok(j))
    &&& (r matches Err(WorldViolation::DeadSlotNotScrubbed { slot, .. }) ==> w.stage_free() && slot < w.n() && !w.flags()[slot as int] && w.free_list().contains(slot) && !w.scrubbed(slot as int) && forall|j: int| 0 <= j < slot ==> #[trigger] w.dead_ok(j))
}

/// `b` is `a` after [`World::spawn_with_resource`] put a new entity `r` of
/// `kind`, `owner`, `pos`, `health` and `resource` into the lowest free slot,
/// or a new one at the end.
pub open spec fn spawned_into(a: World, kind: u16, owner: u8, pos: Vec2Fx, health: Fx, resource: i32, b: World, r: EntityId) -> bool {
    &&& (r.idx() == spawn_slot(&a))
    &&& (b.live_id(r))
    &&& (forall|x: EntityId| x != r ==> #[trigger] b.live_id(x) == a.live_id(x))
    &&& (forall|j: int| 0 <= j < r.idx() ==> #[trigger] a.flags()[j])
    &&& (r.idx() < a.n() ==> !a.flags()[r.idx() as int])
    &&& (b.n() == if r.idx() < a.n() { a.n() } else { a.n() + 1 })
    &&& (b.flags() == set_at(a.flags(), r.idx() as int, true))
    &&& (b.gens() == set_at(a.gens(), r.idx() as int, if r.idx() < a.n() { a.gens()[r.idx() as int] } else { 0u32 }))
    &&& (b.live_count() == a.live_count() + 1)
    &&& (b.free_list() == if a.free_list().len() > 0 { a.free_list().drop_last() } else { a.free_list() })
    &&& (b.kinds() == set_at(a.kinds(), r.idx() as int, kind))
    &&& (b.owners() == set_at(a.owners(), r.idx() as int, owner))
    &&& (b.positions() == set_at(a.positions(), r.idx() as int, pos))
    &&& (b.healths() == set_at(a.healths(), r.idx() as int, health))
    &&& (b.move_targets() == set_at(a.move_targets(), r.idx() as int, None))
    &&& (b.resources() == set_at(a.resources(), r.idx() as int, resource))
    &&& (b.facings() == set_at(a.facings(), r.idx() as int, 1u8))
    &&& (b.orders() == set_at(a.orders(), r.idx() as int, Order::Idle))
    &&& (b.navs() == set_at(a.navs(), r.idx() as int, None))
    &&& (b.carries() == set_at(a.carries(), r.idx() as int, None))
    &&& (b.constructions() == set_at(a.constructions(), r.idx() as int, None))
    &&& (b.productions() == set_at(a.productions(), r.idx() as int, None))
    &&& (b.works() == set_at(a.works(), r.idx() as int, Fx(0)))
    &&& (b.stances() == set_at(a.stances(), r.idx() as int, if kind == crate::kinds::VILLAGER { Stance::Passive } else { Stance::Defensive }))
    &&& (b.formations() == set_at(a.formations(), r.idx() as int, if kind == crate::kinds::VILLAGER { Formation::Spread } else { Formation::Line }))
    &&& (b.reloads() == set_at(a.reloads(), r.idx() as int, 0u16))
    &&& (b.dyings() == set_at(a.dyings(), r.idx() as int, 0u16))
}

/// `b` is `a` with the live entity `id` despawned: its slot is freed, its
/// generation bumped and every column of it scrubbed to the empty value.
pub open spec fn despawn_result(a: World, id: EntityId, b: World) -> bool {
    let i = id.idx() as int;
    &&& b.n() == a.n()
    &&& b.flags() == a.flags().update(i, false)
    &&& b.gens() == a.gens().update(i, a.gens()[i].wrapping_add(1))
    &&& b.live_count() == a.live_count() - 1
    &&& b.free_list().len() == a.free_list().len() + 1
    &&& forall|x: u32| #[trigger] b.free_list().contains(x)
        <==> (a.free_list().contains(x) || x == id.idx())
    &&& b.kinds() == a.kinds().update(i, 0)
    &&& b.owners() == a.owners().update(i, 0)
    &&& b.positions() == a.positions().update(i, zero_vec())
    &&& b.healths() == a.healths().update(i, Fx(0))
    &&& b.move_targets() == a.move_targets().update(i, None)
    &&& b.resources() == a.resources().update(i, 0)
    &&& b.facings() == a.facings().update(i, 0)
    &&& b.orders() == a.orders().update(i, Order::Idle)
    &&& b.navs() == a.navs().update(i, None)
    &&& b.carries() == a.carries().update(i, None)
    &&& b.constructions() == a.constructions().update(i, None)
    &&& b.productions() == a.productions().update(i, None)
    &&& b.works() == a.works().update(i, Fx(0))
    &&& b.stances() == a.stances().update(i, Stance::Defensive)
    &&& b.formations() == a.formations().update(i, Formation::Spread)
    &&& b.reloads() == a.reloads().update(i, 0)
    &&& b.dyings() == a.dyings().update(i, 0)
}

/// `a` and `b` agree everywhere but in the columns of slot `i`.
pub open spec fn differ_only_at(a: World, b: World, i: int) -> bool {
    &&& b.n() == a.n()
    &&& b.flags() == a.flags()
    &&& b.gens() == a.gens()
    &&& b.free_list() == a.free_list()
    &&& b.live_count() == a.live_count()
    &&& b.kinds() == a.kinds().update(i, b.kinds()[i])
    &&& b.owners() == a.owners().update(i, b.owners()[i])
    &&& b.positions() == a.positions().update(i, b.positions()[i])
    &&& b.healths() == a.healths().update(i, b.healths()[i])
    &&& b.move_targets() == a.move_targets().update(i, b.move_targets()[i])
    &&& b.resources() == a.resources().update(i, b.resources()[i])
    &&& b.facings() == a.facings().update(i, b.facings()[i])
    &&& b.orders() == a.orders().update(i, b.orders()[i])
    &&& b.navs() == a.navs().update(i, b.navs()[i])
    &&& b.carries() == a.carries().update(i, b.carries()[i])
    &&& b.constructions() == a.constructions().update(i, b.constructions()[i])
    &&& b.productions() == a.productions().update(i, b.productions()[i])
    &&& b.works() == a.works().update(i, b.works()[i])
    &&& b.stances() == a.stances().update(i, b.stances()[i])
    &&& b.formations() == a.formations().update(i, b.formations()[i])
    &&& b.reloads() == a.reloads().update(i, b.reloads()[i])
    &&& b.dyings() == a.dyings().update(i, b.dyings()[i])
}

/// The two stores hold the same slots, generations, free list and columns.
pub open spec fn same_store(a: World, b: World) -> bool {
    &&& b.n() == a.n()
    &&& b.flags() == a.flags()
    &&& b.gens() == a.gens()
    &&& b.free_list() == a.free_list()
    &&& b.live_count() == a.live_count()
    &&& b.kinds() == a.kinds()
    &&& b.owners() == a.owners()
    &&& b.positions() == a.positions()
    &&& b.healths() == a.healths()
    &&& b.move_targets() == a.move_targets()
    &&& b.resources() == a.resources()
    &&& b.facings() == a.facings()
    &&& b.orders() == a.orders()
    &&& b.navs() == a.navs()
    &&& b.carries() == a.carries()
    &&& b.constructions() == a.constructions()
    &&& b.productions() == a.productions()
    &&& b.works() == a.works()
    &&& b.stances() == a.stances()
    &&& b.formations() == a.formations()
    &&& b.reloads() == a.reloads()
    &&& b.dyings() == a.dyings()
}

/// Despawning leaves no trace of what the entity held: two stores that
/// differ only in the columns of the despawned entity's slot are the same
/// store once it is despawned from both.
pub proof fn lemma_despawn_forgets(a: World, b: World, id: EntityId, a2: World, b2: World)
    requires
        a.wf(),
        b.wf(),
        a.live_id(id),
        differ_only_at(a, b, id.idx() as int),
        a2.wf(),
        b2.wf(),
        despawn_result(a, id, a2),
        despawn_result(b, id, b2),
    ensures
        same_store(a2, b2),
{
    a.lemma_cols();
    b.lemma_cols();
    let i = id.idx() as int;
    assert(a2.kinds() =~= b2.kinds());
    assert(a2.owners() =~= b2.owners());
    assert(a2.positions() =~= b2.positions());
    assert(a2.healths() =~= b2.healths());
    assert(a2.move_targets() =~= b2.move_targets());
    assert(a2.resources() =~= b2.resources());
    assert(a2.facings() =~= b2.facings());
    assert(a2.orders() =~= b2.orders());
    assert(a2.navs() =~= b2.navs());
    assert(a2.carries() =~= b2.carries());
    assert(a2.constructions() =~= b2.constructions());
    assert(a2.productions() =~= b2.productions());
    assert(a2.works() =~= b2.works());
    assert(a2.stances() =~= b2.stances());
    assert(a2.formations() =~= b2.formations());
    assert(a2.reloads() =~= b2.reloads());
    assert(a2.dyings() =~= b2.dyings());
    assert forall|x: u32| #![trigger a2.free_list().contains(x)] #![trigger b2.free_list().contains(x)]
        a2.free_list().contains(x) <==> b2.free_list().contains(x) by {
        assert(a2.free_list().contains(x) == (a.free_list().contains(x) || x == id.idx()));
        assert(b2.free_list().contains(x) == (b.free_list().contains(x) || x == id.idx()));
    }
    lemma_descending_unique(a2.free_list(), b2.free_list());
}

/// Two strictly descending sequences with the same elements are the same
/// sequence.
proof fn lemma_descending_unique(x: Seq<u32>, y: Seq<u32>)
    requires
        forall|i: int, j: int| 0 <= i < j < x.len() ==> x[i] > x[j],
        forall|i: int, j: int| 0 <= i < j < y.len() ==> y[i] > y[j],
        forall|v: u32| #![trigger x.contains(v)] #![trigger y.contains(v)] x.contains(v) <==> y.contains(v),
    ensures
        x == y,
    decreases x.len(),
{
    if x.len() == 0 {
        if y.len() > 0 {
            assert(y.contains(y[0]));
        }
        assert(x =~= y);
    } else {
        assert(x.contains(x[0]));
        assert(y.len() > 0);
        assert(y.contains(y[0]));
        let i = choose|i: int| 0 <= i < y.len() && y[i] == x[0];
        let j = choose|j: int| 0 <= j < x.len() && x[j] == y[0];
        if i > 0 {
            assert(y[0] > y[i]);
            if j > 0 {
                assert(x[0] > x[j]);
            }
        }
        assert(x[0] == y[0]);
        let xr = x.drop_first();
        let yr = y.drop_first();
        assert forall|v: u32| #![trigger xr.contains(v)] #![trigger yr.contains(v)] xr.contains(v) <==> yr.contains(v) by {
            if xr.contains(v) {
                let k = choose|k: int| 0 <= k < xr.len() && xr[k] == v;
                assert(x[k + 1] == v);
                assert(y.contains(v));
                let m = choose|m: int| 0 <= m < y.len() && y[m] == v;
                assert(m != 0);
                assert(yr[m - 1] == v);
            }
            if yr.contains(v) {
                let k = choose|k: int| 0 <= k < yr.len() && yr[k] == v;
                assert(y[k + 1] == v);
                assert(x.contains(v));
                let m = choose|m: int| 0 <= m < x.len() && x[m] == v;
                assert(m != 0);
                assert(xr[m - 1] == v);
            }
        }
        lemma_descending_unique(xr, yr);
        assert(x =~= seq![x[0]] + xr);
        assert(y =~= seq![y[0]] + yr);
    }
}

/// `b` is `a` with, at most, the columns named by the flags rewritten:
/// `jobs` the orders and trips, `work` the work accumulators, `site` the
/// construction progress, health and resource, `prod` the production
/// queues. Slots, liveness, generations and the free list stay.
pub open spec fn edited(a: World, b: World, jobs: bool, work: bool, site: bool, prod: bool) -> bool {
    &&& b.gens() == a.gens()
    &&& b.flags() == a.flags()
    &&& b.free_list() == a.free_list()
    &&& b.live_count() == a.live_count()
    &&& b.kinds() == a.kinds()
    &&& b.owners() == a.owners()
    &&& b.positions() == a.positions()
    &&& b.move_targets() == a.move_targets()
    &&& b.facings() == a.facings()
    &&& b.carries() == a.carries()
    &&& b.stances() == a.stances()
    &&& b.formations() == a.formations()
    &&& b.reloads() == a.reloads()
    &&& b.dyings() == a.dyings()
    &&& b.orders().len() == a.orders().len()
    &&& b.navs().len() == a.navs().len()
    &&& b.works().len() == a.works().len()
    &&& b.constructions().len() == a.constructions().len()
    &&& b.healths().len() == a.healths().len()
    &&& b.resources().len() == a.resources().len()
    &&& b.productions().len() == a.productions().len()
    &&& !jobs ==> b.orders() == a.orders() && b.navs() == a.navs()
    &&& !work ==> b.works() == a.works()
    &&& !site ==> b.constructions() == a.constructions() && b.healths() == a.healths() && b.resources() == a.resources()
    &&& !prod ==> b.productions() == a.productions()
}

/// `b` is `a` with, at most, the walk targets rewritten.
pub open spec fn retargeted(a: World, b: World) -> bool {
    &&& b.gens() == a.gens()
    &&& b.flags() == a.flags()
    &&& b.free_list() == a.free_list()
    &&& b.live_count() == a.live_count()
    &&& b.kinds() == a.kinds()
    &&& b.owners() == a.owners()
    &&& b.positions() == a.positions()
    &&& b.navs() == a.navs()
    &&& b.move_targets().len() == a.move_targets().len()
    &&& b.facings() == a.facings()
    &&& b.carries() == a.carries()
    &&& b.stances() == a.stances()
    &&& b.formations() == a.formations()
    &&& b.reloads() == a.reloads()
    &&& b.dyings() == a.dyings()
    &&& b.orders() == a.orders()
    &&& b.works() == a.works()
    &&& b.constructions() == a.constructions()
    &&& b.healths() == a.healths()
    &&& b.resources() == a.resources()
    &&& b.productions() == a.productions()
}

/// `b` is `a` with, at most, positions and trips rewritten.
pub open spec fn relocated(a: World, b: World) -> bool {
    &&& b.gens() == a.gens()
    &&& b.flags() == a.flags()
    &&& b.free_list() == a.free_list()
    &&& b.live_count() == a.live_count()
    &&& b.kinds() == a.kinds()
    &&& b.owners() == a.owners()
    &&& b.positions().len() == a.positions().len()
    &&& b.navs().len() == a.navs().len()
    &&& b.move_targets() == a.move_targets()
    &&& b.facings() == a.facings()
    &&& b.carries() == a.carries()
    &&& b.stances() == a.stances()
    &&& b.formations() == a.formations()
    &&& b.reloads() == a.reloads()
    &&& b.dyings() == a.dyings()
    &&& b.orders() == a.orders()
    &&& b.works() == a.works()
    &&& b.constructions() == a.constructions()
    &&& b.healths() == a.healths()
    &&& b.resources() == a.resources()
    &&& b.productions() == a.productions()
}

/// Writing any values into the columns of live slots keeps a well-formed
/// store well-formed, so [`World::check`] still reports nothing.
pub proof fn lemma_live_writes_keep_wf(a: World, b: World)
    requires
        a.wf(),
        live_writes(a, b),
    ensures
        b.wf(),
{
    a.lemma_cols();
    assert forall|i: int| 0 <= i < b.n() && !#[trigger] b.flags()[i] implies b.free_list().contains(i as u32) && b.scrubbed(i) by {
        assert(a.scrubbed(i));
        assert(b.kinds()[i] == a.kinds()[i]);
        assert(b.owners()[i] == a.owners()[i]);
        assert(b.positions()[i] == a.positions()[i]);
        assert(b.healths()[i] == a.healths()[i]);
        assert(b.move_targets()[i] == a.move_targets()[i]);
        assert(b.resources()[i] == a.resources()[i]);
        assert(b.facings()[i] == a.facings()[i]);
        assert(b.orders()[i] == a.orders()[i]);
        assert(b.navs()[i] == a.navs()[i]);
        assert(b.carries()[i] == a.carries()[i]);
        assert(b.constructions()[i] == a.constructions()[i]);
        assert(b.productions()[i] == a.productions()[i]);
        assert(b.works()[i] == a.works()[i]);
        assert(b.stances()[i] == a.stances()[i]);
        assert(b.formations()[i] == a.formations()[i]);
        assert(b.reloads()[i] == a.reloads()[i]);
        assert(b.dyings()[i] == a.dyings()[i]);
    }
}

/// A stable handle to an entity. Cheap to copy; survives slot reuse safely.
#[derive(Clone, Copy, PartialEq, Eq, Structural, Hash, Debug)]
pub struct EntityId {
    index: u32,
    generation: u32,
}

impl EntityId {
    /// The slot, as a spec value.
    pub closed spec fn idx(self) -> u32 {
        self.index
    }

    /// The generation, as a spec value.
    pub closed spec fn gen(self) -> u32 {
        self.generation
    }

    /// A handle is its index and generation.
    pub proof fn lemma_id_eq(a: EntityId, b: EntityId)
        ensures
            (a.idx() == b.idx() && a.gen() == b.gen()) <==> a == b,
    {
    }

    /// Two handles are the same exactly when their parts are.
    pub broadcast proof fn lemma_eq(a: EntityId, b: EntityId)
        ensures
            (#[trigger] a.idx() == #[trigger] b.idx() && a.gen() == b.gen()) <==> a == b,
    {
    }

    /// Builds a handle from its parts.
    ///
    /// Not a way to forge access: a handle whose generation does not match
    /// the slot's is rejected by [`World::slot`].
    pub fn from_parts(index: u32, generation: u32) -> (r: EntityId)
        ensures
            r.idx() == index,
            r.gen() == generation,
    {
        EntityId { index, generation }
    }

    /// The slot this ID refers (or referred) to.
    pub fn index(self) -> (r: usize)
        ensures
            r == self.idx(),
    {
        self.index as usize
    }

    /// The generation that must match for this ID to be live.
    pub fn generation(self) -> (r: u32)
        ensures
            r == self.gen(),
    {
        self.generation
    }
}

/// The bytes of a handle: its index, then its generation.
pub open spec fn id_bytes(id: EntityId) -> Seq<u8> {
    le32(id.idx()) + le32(id.gen())
}

impl HashState for EntityId {
    open spec fn state_bytes(&self) -> Seq<u8> {
        id_bytes(*self)
    }

    fn hash_state(&self, h: &mut StateHasher) {
        let ghost h0 = h@;
        h.write_u32(self.index);
        h.write_u32(self.generation);
        proof {
            lemma_fnv_append(h0, le32(self.index), le32(self.generation));
        }
    }
}

/// A validated slot index. Only obtainable from a live lookup, so indexing
/// component vectors with it cannot hit a dead entity in the same tick.
#[derive(Clone, Copy, PartialEq, Eq, Structural, Debug)]
pub struct Slot(usize);

impl Slot {
    /// The raw index, as a spec value.
    pub closed spec fn at(self) -> usize {
        self.0
    }

    /// A slot from its index; the caller vouches it is live.
    pub(crate) fn new(i: usize) -> (r: Slot)
        ensures
            r.at() == i,
    {
        Slot(i)
    }

    /// The raw index.
    pub fn index(self) -> (r: usize)
        ensures
            r == self.at(),
    {
        self.0
    }
}

/// All entities and their components, one column per component, one row
/// per slot.
#[derive(PartialEq, Eq, Debug)]
pub struct World {
    generation: Vec<u32>,
    alive: Vec<bool>,
    /// Free slots, kept sorted descending so `pop()` yields the lowest index.
    free: Vec<u32>,
    live: u32,
    /// What this entity is.
    pub kind: Vec<u16>,
    /// Who owns it.
    pub owner: Vec<u8>,
    /// Position in tiles.
    pub pos: Vec<Vec2Fx>,
    /// Remaining hit points.
    pub health: Vec<Fx>,
    /// Where it is walking to, if anywhere.
    pub move_target: Vec<Option<Vec2Fx>>,
    /// Resource units remaining, for nodes and carcasses; 0 otherwise.
    pub resource: Vec<i32>,
    /// Which of 8 directions it faces.
    pub facing: Vec<u8>,
    /// Current job.
    pub order: Vec<Order>,
    /// Current trip, for mobile units.
    pub nav: Vec<Option<Nav>>,
    /// What a villager is carrying.
    pub carry: Vec<Option<(Resource, i32)>>,
    /// Units of construction work done; `None` once complete (or never a site).
    pub construction: Vec<Option<u32>>,
    /// Production queue and rally point, for buildings that train.
    pub production: Vec<Option<Production>>,
    /// Fractional work accumulator (gathering).
    pub work: Vec<Fx>,
    /// How it answers enemies it was not ordered at.
    pub stance: Vec<Stance>,
    /// The shape it takes when moved with others.
    pub formation: Vec<Formation>,
    /// Ticks until it can hit again; 0 means ready.
    pub reload: Vec<u16>,
    /// Ticks left as a corpse; 0 means alive.
    pub dying: Vec<u16>,
}

/// A structural invariant of the entity store that does not hold.
#[derive(Clone, Copy, PartialEq, Eq, Debug)]
pub enum WorldViolation {
    /// The parallel component vectors are different lengths.
    RaggedColumns {
        /// Which column.
        column: &'static str,
        /// Its length.
        len: usize,
        /// The length every column should have.
        expected: usize,
    },
    /// The cached live count disagrees with the `alive` flags.
    LiveCountWrong {
        /// The cached count.
        cached: u32,
        /// The counted one.
        counted: u32,
    },
    /// The free list is not sorted descending.
    FreeListUnsorted {
        /// Position of the first out-of-order pair.
        at: usize,
    },
    /// The free list names the same slot twice.
    FreeListDuplicate {
        /// The repeated slot.
        slot: u32,
    },
    /// The free list names a slot that is live.
    FreeSlotIsLive {
        /// The slot.
        slot: u32,
    },
    /// The free list names a slot that does not exist.
    FreeSlotOutOfRange {
        /// The slot.
        slot: u32,
    },
    /// A dead slot still holds component data.
    DeadSlotNotScrubbed {
        /// The slot.
        slot: u32,
        /// Which column still holds something.
        column: &'static str,
    },
    /// A slot is neither live nor free, so it can never be used again.
    SlotLeaked {
        /// The slot.
        slot: u32,
    },
}

/// What a violation reads as.
pub open spec fn violation_text(v: WorldViolation) -> Seq<char> {
    match v {
        WorldViolation::RaggedColumns { column, len, expected } => "column `"@ + column@ + "` has "@ + dec_digits(
            len as nat,
        ) + " rows, expected "@ + dec_digits(expected as nat),
        WorldViolation::LiveCountWrong { cached, counted } => "live count is "@ + dec_digits(cached as nat) + " but "@
            + dec_digits(counted as nat) + " slots are alive"@,
        WorldViolation::FreeListUnsorted { at } => "free list is not sorted descending at index "@ + dec_digits(at as nat),
        WorldViolation::FreeListDuplicate { slot } => "free list names slot "@ + dec_digits(slot as nat) + " twice"@,
        WorldViolation::FreeSlotIsLive { slot } => "slot "@ + dec_digits(slot as nat) + " is both live and free"@,
        WorldViolation::FreeSlotOutOfRange { slot } => "free list names slot "@ + dec_digits(slot as nat)
            + ", which does not exist"@,
        WorldViolation::DeadSlotNotScrubbed { slot, column } => "dead slot "@ + dec_digits(slot as nat) + " still holds `"@
            + column@ + "` data"@,
        WorldViolation::SlotLeaked { slot } => "slot "@ + dec_digits(slot as nat) + " is neither live nor free"@,
    }
}

impl WorldViolation {
    /// The violation in words, naming the slot or column.
    pub fn to_string(&self) -> (r: String)
        ensures
            r@ == violation_text(*self),
    {
        let mut s = String::new();
        match *self {
            WorldViolation::RaggedColumns { column, len, expected } => {
                s.append("column `");
                s.append(column);
                s.append("` has ");
                push_unsigned(&mut s, len as u64);
                s.append(" rows, expected ");
                push_unsigned(&mut s, expected as u64);
            },
            WorldViolation::LiveCountWrong { cached, counted } => {
                s.append("live count is ");
                push_unsigned(&mut s, cached as u64);
                s.append(" but ");
                push_unsigned(&mut s, counted as u64);
                s.append(" slots are alive");
            },
            WorldViolation::FreeListUnsorted { at } => {
                s.append("free list is not sorted descending at index ");
                push_unsigned(&mut s, at as u64);
            },
            WorldViolation::FreeListDuplicate { slot } => {
                s.append("free list names slot ");
                push_unsigned(&mut s, slot as u64);
                s.append(" twice");
            },
            WorldViolation::FreeSlotIsLive { slot } => {
                s.append("slot ");
                push_unsigned(&mut s, slot as u64);
                s.append(" is both live and free");
            },
            WorldViolation::FreeSlotOutOfRange { slot } => {
                s.append("free list names slot ");
                push_unsigned(&mut s, slot as u64);
                s.append(", which does not exist");
            },
            WorldViolation::DeadSlotNotScrubbed { slot, column } => {
                s.append("dead slot ");
                push_unsigned(&mut s, slot as u64);
                s.append(" still holds `");
                s.append(column);
                s.append("` data");
            },
            WorldViolation::SlotLeaked { slot } => {
                s.append("slot ");
                push_unsigned(&mut s, slot as u64);
                s.append(" is neither live nor free");
            },
        }
        proof {
            assert(s@ =~= violation_text(*self));
        }
        s
    }
}

/// How many flags are set.
pub open spec fn count_true(s: Seq<bool>) -> nat
    decreases s.len(),
{
    if s.len() == 0 {
        0
    } else {
        count_true(s.drop_last()) + if s.last() { 1nat } else { 0nat }
    }
}

/// Setting one flag changes the count by the difference.
pub proof fn lemma_count_update(s: Seq<bool>, i: int, v: bool)
    requires
        0 <= i < s.len(),
    ensures
        count_true(s.update(i, v)) == count_true(s) - (if s[i] { 1int } else { 0int }) + (if v { 1int } else { 0int }),
    decreases s.len(),
{
    if i == s.len() - 1 {
        assert(s.update(i, v).drop_last() =~= s.drop_last());
    } else {
        lemma_count_update(s.drop_last(), i, v);
        assert(s.update(i, v).drop_last() =~= s.drop_last().update(i, v));
    }
}

/// At most as many flags are set as there are flags.
pub proof fn lemma_count_le(s: Seq<bool>)
    ensures
        count_true(s) <= s.len(),
    decreases s.len(),
{
    if s.len() > 0 {
        lemma_count_le(s.drop_last());
    }
}

/// Writes `v` at `i`, or appends it when `i` is one past the end.
pub open spec fn set_at<T>(s: Seq<T>, i: int, v: T) -> Seq<T> {
    if i < s.len() { s.update(i, v) } else { s.push(v) }
}

/// The zero vector.
pub open spec fn zero_vec() -> Vec2Fx {
    Vec2Fx { x: Fx(0), y: Fx(0) }
}

impl World {
    /// Generation per slot.
    pub closed spec fn gens(&self) -> Seq<u32> {
        self.generation@
    }

    /// Liveness per slot.
    pub closed spec fn flags(&self) -> Seq<bool> {
        self.alive@
    }

    /// The free list, descending.
    pub closed spec fn free_list(&self) -> Seq<u32> {
        self.free@
    }

    /// The cached live count.
    pub closed spec fn live_count(&self) -> u32 {
        self.live
    }

    /// The `kind` column.
    pub closed spec fn kinds(&self) -> Seq<u16> {
        self.kind@
    }

    /// The `owner` column.
    pub closed spec fn owners(&self) -> Seq<u8> {
        self.owner@
    }

    /// The `pos` column.
    pub closed spec fn positions(&self) -> Seq<Vec2Fx> {
        self.pos@
    }

    /// The `health` column.
    pub closed spec fn healths(&self) -> Seq<Fx> {
        self.health@
    }

    /// The `move_target` column.
    pub closed spec fn move_targets(&self) -> Seq<Option<Vec2Fx>> {
        self.move_target@
    }

    /// The `resource` column.
    pub closed spec fn resources(&self) -> Seq<i32> {
        self.resource@
    }

    /// The `facing` column.
    pub closed spec fn facings(&self) -> Seq<u8> {
        self.facing@
    }

    /// The `order` column.
    pub closed spec fn orders(&self) -> Seq<Order> {
        self.order@
    }

    /// The `nav` column.
    pub closed spec fn navs(&self) -> Seq<Option<Nav>> {
        self.nav@
    }

    /// The `carry` column.
    pub closed spec fn carries(&self) -> Seq<Option<(Resource, i32)>> {
        self.carry@
    }

    /// The `construction` column.
    pub closed spec fn constructions(&self) -> Seq<Option<u32>> {
        self.construction@
    }

    /// The `production` column.
    pub closed spec fn productions(&self) -> Seq<Option<Production>> {
        self.production@
    }

    /// The `work` column.
    pub closed spec fn works(&self) -> Seq<Fx> {
        self.work@
    }

    /// The `stance` column.
    pub closed spec fn stances(&self) -> Seq<Stance> {
        self.stance@
    }

    /// The `formation` column.
    pub closed spec fn formations(&self) -> Seq<Formation> {
        self.formation@
    }

    /// The `reload` column.
    pub closed spec fn reloads(&self) -> Seq<u16> {
        self.reload@
    }

    /// The `dying` column.
    pub closed spec fn dyings(&self) -> Seq<u16> {
        self.dying@
    }

    /// Slots ever allocated.
    pub open spec fn n(&self) -> int {
        self.flags().len() as int
    }

    /// Every column has one row per slot.
    pub closed spec fn cols_ok(&self) -> bool {
        let n = self.n();
        &&& self.gens().len() == n
        &&& self.kind@.len() == n
        &&& self.owner@.len() == n
        &&& self.pos@.len() == n
        &&& self.health@.len() == n
        &&& self.move_target@.len() == n
        &&& self.resource@.len() == n
        &&& self.facing@.len() == n
        &&& self.order@.len() == n
        &&& self.nav@.len() == n
        &&& self.carry@.len() == n
        &&& self.construction@.len() == n
        &&& self.production@.len() == n
        &&& self.work@.len() == n
        &&& self.stance@.len() == n
        &&& self.formation@.len() == n
        &&& self.reload@.len() == n
        &&& self.dying@.len() == n
    }

    /// A slot holds nothing in any column.
    pub closed spec fn scrubbed(&self, i: int) -> bool {
        &&& self.stance@[i] == Stance::Defensive
        &&& self.formation@[i] == Formation::Spread
        &&& self.reload@[i] == 0
        &&& self.dying@[i] == 0
        &&& self.kind@[i] == 0
        &&& self.owner@[i] == 0
        &&& self.pos@[i] == zero_vec()
        &&& self.health@[i] == Fx(0)
        &&& self.move_target@[i] is None
        &&& self.resource@[i] == 0
        &&& self.facing@[i] == 0
        &&& self.order@[i] == Order::Idle
        &&& self.nav@[i] is None
        &&& self.carry@[i] is None
        &&& self.construction@[i] is None
        &&& self.production@[i] is None
        &&& self.work@[i] == Fx(0)
    }

    /// The free list is strictly descending.
    pub closed spec fn free_sorted(&self) -> bool {
        forall|a: int, b: int| 0 <= a < b < self.free_list().len() ==> self.free_list()[a] > self.free_list()[b]
    }

    /// Every structural invariant [`World::check`] verifies.
    pub closed spec fn wf(&self) -> bool {
        &&& self.cols_ok()
        &&& self.live_count() == count_true(self.flags())
        &&& self.free_sorted()
        &&& forall|k: int|
            0 <= k < self.free_list().len() ==> #[trigger] self.free_list()[k] < self.n() && !self.flags()[self.free_list()[k] as int]
        &&& forall|i: int|
            0 <= i < self.n() && !#[trigger] self.flags()[i] ==> self.free_list().contains(i as u32)
                && self.scrubbed(i)
    }

    /// The handle names a live slot of the current generation.
    pub open spec fn live_id(&self, id: EntityId) -> bool {
        &&& id.idx() < self.n()
        &&& self.flags()[id.idx() as int]
        &&& self.gens()[id.idx() as int] == id.gen()
    }

    /// An empty world.
    pub fn new() -> (r: World)
        ensures
            r.wf(),
            r.n() == 0,
            r.live_count() == 0,
            r.free_list().len() == 0,
    {
        World {
            generation: Vec::new(),
            alive: Vec::new(),
            free: Vec::new(),
            live: 0,
            kind: Vec::new(),
            owner: Vec::new(),
            pos: Vec::new(),
            health: Vec::new(),
            move_target: Vec::new(),
            resource: Vec::new(),
            facing: Vec::new(),
            order: Vec::new(),
            nav: Vec::new(),
            carry: Vec::new(),
            construction: Vec::new(),
            production: Vec::new(),
            work: Vec::new(),
            stance: Vec::new(),
            formation: Vec::new(),
            reload: Vec::new(),
            dying: Vec::new(),
        }
    }

    /// Number of live entities.
    pub fn len(&self) -> (r: usize)
        ensures
            r == self.live_count(),
    {
        self.live as usize
    }

    /// True if no entities are live.
    pub fn is_empty(&self) -> (r: bool)
        ensures
            r == (self.live_count() == 0),
    {
        self.live == 0
    }

    /// Number of slots ever allocated (live + free).
    pub fn capacity(&self) -> (r: usize)
        ensures
            r == self.n(),
    {
        self.alive.len()
    }

    /// Resolves a handle to a slot, or `None` if it is stale or dead.
    pub fn slot(&self, id: EntityId) -> (r: Option<Slot>)
        requires
            self.cols_ok(),
        ensures
            r is Some <==> self.live_id(id),
            r matches Some(s) ==> s.at() == id.idx(),
    {
        let i = id.index as usize;
        if i < self.alive.len() && self.alive[i] && self.generation[i] == id.generation {
            Some(Slot(i))
        } else {
            None
        }
    }

    /// True if `id` refers to a live entity.
    pub fn contains(&self, id: EntityId) -> (r: bool)
        requires
            self.cols_ok(),
        ensures
            r == self.live_id(id),
    {
        self.slot(id).is_some()
    }

    /// The handle for a slot: its index and current generation.
    pub fn id_at(&self, slot: Slot) -> (r: EntityId)
        requires
            self.cols_ok(),
            slot.at() < self.n(),
            slot.at() <= u32::MAX,
        ensures
            r.idx() == slot.at(),
            r.gen() == self.gens()[slot.at() as int],
    {
        EntityId { index: slot.0 as u32, generation: self.generation[slot.0] }
    }

    /// The `kind` of slot `i`.
    pub fn kind_at(&self, i: usize) -> (r: u16)
        requires
            self.cols_ok(),
            i < self.n(),
        ensures
            r == self.kinds()[i as int],
    {
        self.kind[i]
    }

    /// The `owner` of slot `i`.
    pub fn owner_at(&self, i: usize) -> (r: u8)
        requires
            self.cols_ok(),
            i < self.n(),
        ensures
            r == self.owners()[i as int],
    {
        self.owner[i]
    }

    /// The `pos` of slot `i`.
    pub fn pos_at(&self, i: usize) -> (r: Vec2Fx)
        requires
            self.cols_ok(),
            i < self.n(),
        ensures
            r == self.positions()[i as int],
    {
        self.pos[i]
    }

    /// The `health` of slot `i`.
    pub fn health_at(&self, i: usize) -> (r: Fx)
        requires
            self.cols_ok(),
            i < self.n(),
        ensures
            r == self.healths()[i as int],
    {
        self.health[i]
    }

    /// The `move_target` of slot `i`.
    pub fn move_target_at(&self, i: usize) -> (r: Option<Vec2Fx>)
        requires
            self.cols_ok(),
            i < self.n(),
        ensures
            r == self.move_targets()[i as int],
    {
        self.move_target[i]
    }

    /// The `resource` of slot `i`.
    pub fn resource_at(&self, i: usize) -> (r: i32)
        requires
            self.cols_ok(),
            i < self.n(),
        ensures
            r == self.resources()[i as int],
    {
        self.resource[i]
    }

    /// The `facing` of slot `i`.
    pub fn facing_at(&self, i: usize) -> (r: u8)
        requires
            self.cols_ok(),
            i < self.n(),
        ensures
            r == self.facings()[i as int],
    {
        self.facing[i]
    }

    /// The `order` of slot `i`.
    pub fn order_at(&self, i: usize) -> (r: Order)
        requires
            self.cols_ok(),
            i < self.n(),
        ensures
            r == self.orders()[i as int],
    {
        self.order[i]
    }

    /// The `carry` of slot `i`.
    pub fn carry_at(&self, i: usize) -> (r: Option<(Resource, i32)>)
        requires
            self.cols_ok(),
            i < self.n(),
        ensures
            r == self.carries()[i as int],
    {
        self.carry[i]
    }

    /// The `construction` of slot `i`.
    pub fn construction_at(&self, i: usize) -> (r: Option<u32>)
        requires
            self.cols_ok(),
            i < self.n(),
        ensures
            r == self.constructions()[i as int],
    {
        self.construction[i]
    }

    /// The production queue of slot `i`.
    pub fn production_at(&self, i: usize) -> (r: &Option<Production>)
        requires
            self.cols_ok(),
            i < self.n(),
        ensures
            *r == self.productions()[i as int],
    {
        &self.production[i]
    }

    /// Every column has a row per slot.
    pub proof fn lemma_cols(&self)
        requires
            self.cols_ok(),
        ensures
            self.gens().len() == self.n(),
            self.kinds().len() == self.n(),
            self.owners().len() == self.n(),
            self.positions().len() == self.n(),
            self.healths().len() == self.n(),
            self.move_targets().len() == self.n(),
            self.resources().len() == self.n(),
            self.facings().len() == self.n(),
            self.orders().len() == self.n(),
            self.navs().len() == self.n(),
            self.carries().len() == self.n(),
            self.constructions().len() == self.n(),
            self.productions().len() == self.n(),
            self.works().len() == self.n(),
    {
    }

    /// A well-formed store has its columns in step.
    pub proof fn lemma_wf_cols(&self)
        requires
            self.wf(),
        ensures
            self.cols_ok(),
            self.live_count() == count_true(self.flags()),
    {
    }

    /// True if slot `i` holds a live entity.
    pub fn live_at(&self, i: usize) -> (r: bool)
        requires
            self.cols_ok(),
        ensures
            r == (i < self.n() && self.flags()[i as int]),
    {
        i < self.alive.len() && self.alive[i]
    }

    /// The trip of slot `i`.
    pub fn nav_at(&self, i: usize) -> (r: &Option<Nav>)
        requires
            self.cols_ok(),
            i < self.n(),
        ensures
            *r == self.navs()[i as int],
    {
        &self.nav[i]
    }

    /// The work accumulator of slot `i`.
    pub fn work_at(&self, i: usize) -> (r: Fx)
        requires
            self.cols_ok(),
            i < self.n(),
        ensures
            r == self.works()[i as int],
    {
        self.work[i]
    }

    /// Gives the live entity in slot `i` a new order and trip.
    pub fn set_job(&mut self, i: usize, o: Order, nv: Option<Nav>)
        requires
            old(self).wf(),
            i < old(self).n(),
            old(self).flags()[i as int],
        ensures
            final(self).wf(),
            edited(*old(self), *final(self), true, false, false, false),
            final(self).orders() == old(self).orders().update(i as int, o),
            final(self).navs() == old(self).navs().update(i as int, nv),
    {
        proof {
            self.lemma_cols();
        }
        let ghost w0 = *self;
        self.order.set(i, o);
        self.nav.set(i, nv);
        proof {
            lemma_live_writes_keep_wf(w0, *self);
        }
    }

    /// Gives the live entity in slot `i` a place to walk to, or none.
    pub fn set_target(&mut self, i: usize, t: Option<Vec2Fx>)
        requires
            old(self).wf(),
            i < old(self).n(),
            old(self).flags()[i as int],
        ensures
            final(self).wf(),
            retargeted(*old(self), *final(self)),
            final(self).move_targets() == old(self).move_targets().update(i as int, t),
    {
        proof {
            self.lemma_cols();
        }
        let ghost w0 = *self;
        self.move_target.set(i, t);
        proof {
            lemma_live_writes_keep_wf(w0, *self);
        }
    }

    /// Moves the live entity in slot `i` to `p`.
    pub fn set_pos(&mut self, i: usize, p: Vec2Fx)
        requires
            old(self).wf(),
            i < old(self).n(),
            old(self).flags()[i as int],
        ensures
            final(self).wf(),
            relocated(*old(self), *final(self)),
            final(self).positions() == old(self).positions().update(i as int, p),
            final(self).navs() == old(self).navs(),
    {
        proof {
            self.lemma_cols();
        }
        let ghost w0 = *self;
        self.pos.set(i, p);
        proof {
            lemma_live_writes_keep_wf(w0, *self);
        }
    }

    /// Moves the live entity in slot `i` to `p` and gives it trip `nv`.
    pub fn set_place(&mut self, i: usize, p: Vec2Fx, nv: Option<Nav>)
        requires
            old(self).wf(),
            i < old(self).n(),
            old(self).flags()[i as int],
        ensures
            final(self).wf(),
            relocated(*old(self), *final(self)),
            final(self).positions() == old(self).positions().update(i as int, p),
            final(self).navs() == old(self).navs().update(i as int, nv),
    {
        proof {
            self.lemma_cols();
        }
        let ghost w0 = *self;
        self.pos.set(i, p);
        self.nav.set(i, nv);
        proof {
            lemma_live_writes_keep_wf(w0, *self);
        }
    }

    /// Sets the work accumulator of the live entity in slot `i`.
    pub fn set_work(&mut self, i: usize, v: Fx)
        requires
            old(self).wf(),
            i < old(self).n(),
            old(self).flags()[i as int],
        ensures
            final(self).wf(),
            edited(*old(self), *final(self), false, true, false, false),
            final(self).works() == old(self).works().update(i as int, v),
    {
        proof {
            self.lemma_cols();
        }
        let ghost w0 = *self;
        self.work.set(i, v);
        proof {
            lemma_live_writes_keep_wf(w0, *self);
        }
    }

    /// Makes the live entity in slot `i` a fresh construction site: no work
    /// done, the given health and resource.
    pub fn set_site(&mut self, i: usize, c: Option<u32>, h: Fx, res: i32)
        requires
            old(self).wf(),
            i < old(self).n(),
            old(self).flags()[i as int],
        ensures
            final(self).wf(),
            edited(*old(self), *final(self), false, false, true, false),
            final(self).constructions() == old(self).constructions().update(i as int, c),
            final(self).healths() == old(self).healths().update(i as int, h),
            final(self).resources() == old(self).resources().update(i as int, res),
    {
        proof {
            self.lemma_cols();
        }
        let ghost w0 = *self;
        self.construction.set(i, c);
        self.health.set(i, h);
        self.resource.set(i, res);
        proof {
            lemma_live_writes_keep_wf(w0, *self);
        }
    }

    /// Gives a live entity a production queue, or takes it away.
    pub fn set_production(&mut self, i: usize, p: Option<Production>)
        requires
            old(self).wf(),
            i < old(self).n(),
            old(self).flags()[i as int],
        ensures
            final(self).wf(),
            final(self).productions() == old(self).productions().update(i as int, p),
            final(self).gens() == old(self).gens(),
            final(self).flags() == old(self).flags(),
            final(self).free_list() == old(self).free_list(),
            final(self).live_count() == old(self).live_count(),
            final(self).kinds() == old(self).kinds(),
            final(self).owners() == old(self).owners(),
            final(self).positions() == old(self).positions(),
            final(self).healths() == old(self).healths(),
            final(self).move_targets() == old(self).move_targets(),
            final(self).resources() == old(self).resources(),
            final(self).facings() == old(self).facings(),
            final(self).orders() == old(self).orders(),
            final(self).navs() == old(self).navs(),
            final(self).carries() == old(self).carries(),
            final(self).constructions() == old(self).constructions(),
            final(self).works() == old(self).works(),
            final(self).stances() == old(self).stances(),
            final(self).formations() == old(self).formations(),
            final(self).reloads() == old(self).reloads(),
            final(self).dyings() == old(self).dyings(),
    {
        self.production.set(i, p);
        proof {
            assert forall|j: int| 0 <= j < self.n() && !#[trigger] self.flags()[j] implies self.free_list().contains(j as u32)
                && self.scrubbed(j) by {
                assert(old(self).scrubbed(j));
            }
        }
    }

    /// Live slots in ascending index order — the only iteration order there is.
    pub fn slots(&self) -> (r: Vec<Slot>)
        ensures
            forall|k: int| 0 <= k < r@.len() ==> #[trigger] r@[k].at() < self.n() && self.flags()[r@[k].at() as int],
            forall|a: int, b: int| 0 <= a < b < r@.len() ==> r@[a].at() < r@[b].at(),
            forall|i: int| 0 <= i < self.n() && #[trigger] self.flags()[i] ==> exists|k: int| 0 <= k < r@.len() && r@[k].at() == i,
    {
        let mut out: Vec<Slot> = Vec::new();
        let mut i: usize = 0;
        while i < self.alive.len()
            invariant
                i <= self.n(),
                forall|k: int| 0 <= k < out@.len() ==> #[trigger] out@[k].at() < i && self.flags()[out@[k].at() as int],
                forall|a: int, b: int| 0 <= a < b < out@.len() ==> out@[a].at() < out@[b].at(),
                forall|j: int| 0 <= j < i && #[trigger] self.flags()[j] ==> exists|k: int| 0 <= k < out@.len() && out@[k].at() == j,
            decreases self.alive.len() - i,
        {
            if self.alive[i] {
                let ghost before = out@;
                out.push(Slot(i));
                proof {
                    assert forall|j: int| 0 <= j < i + 1 && #[trigger] self.flags()[j] implies exists|k: int| 0 <= k < out@.len() && out@[k].at() == j by {
                        if j == i {
                            assert(out@[out@.len() - 1].at() == j);
                        } else {
                            let k = choose|k: int| 0 <= k < before.len() && before[k].at() == j;
                            assert(out@[k] == before[k]);
                        }
                    }
                }
            }
            i = i + 1;
        }
        out
    }

    /// Live entity handles in slot order.
    pub fn ids(&self) -> (r: Vec<EntityId>)
        requires
            self.cols_ok(),
            self.n() <= u32::MAX + 1,
        ensures
            forall|k: int| 0 <= k < r@.len() ==> #[trigger] self.live_id(r@[k]),
            forall|a: int, b: int| 0 <= a < b < r@.len() ==> r@[a].idx() < r@[b].idx(),
            forall|i: int| 0 <= i < self.n() && #[trigger] self.flags()[i] ==> exists|k: int| 0 <= k < r@.len() && r@[k].idx() == i,
    {
        let slots = self.slots();
        let mut out: Vec<EntityId> = Vec::new();
        let mut k: usize = 0;
        while k < slots.len()
            invariant
                self.cols_ok(),
                self.n() <= u32::MAX + 1,
                k <= slots@.len(),
                out@.len() == k,
                forall|j: int| 0 <= j < slots@.len() ==> #[trigger] slots@[j].at() < self.n() && self.flags()[slots@[j].at() as int],
                forall|j: int| 0 <= j < k ==> #[trigger] out@[j].idx() == slots@[j].at() && self.live_id(out@[j]),
            decreases slots.len() - k,
        {
            let id = self.id_at(slots[k]);
            out.push(id);
            k = k + 1;
        }
        proof {
            assert forall|a: int, b: int| 0 <= a < b < out@.len() implies out@[a].idx() < out@[b].idx() by {
                assert(out@[a].idx() == slots@[a].at());
                assert(out@[b].idx() == slots@[b].at());
            }
            assert forall|i: int| 0 <= i < self.n() && #[trigger] self.flags()[i] implies exists|k: int| 0 <= k < out@.len() && out@[k].idx() == i by {
                let k = choose|k: int| 0 <= k < slots@.len() && slots@[k].at() == i;
                assert(out@[k].idx() == slots@[k].at());
            }
        }
        out
    }
}

/// The slot the next spawn takes: the lowest free one, else a new one.
pub open spec fn spawn_slot(w: &World) -> int {
    if w.free_list().len() > 0 { w.free_list().last() as int } else { w.n() }
}

impl World {
    /// Facts about the free list that every caller of the store relies on.
    proof fn lemma_free_facts(&self)
        requires
            self.wf(),
        ensures
            self.free_sorted(),
            forall|k: int| 0 <= k < self.free_list().len() ==> #[trigger] self.free_list()[k] < self.n()
                && !self.flags()[self.free_list()[k] as int],
            forall|i: int| 0 <= i < self.n() && !#[trigger] self.flags()[i] ==> self.free_list().contains(i as u32),
            self.cols_ok(),
            self.live_count() == count_true(self.flags()),
    {
    }

    /// Creates an entity and returns its handle.
    pub fn spawn(&mut self, kind: u16, owner: u8, pos: Vec2Fx, health: Fx) -> (r: EntityId)
        requires
            old(self).wf(),
            old(self).n() < u32::MAX,
        ensures
            final(self).wf(),
            r.idx() == spawn_slot(old(self)),
            final(self).live_id(r),
            // No other handle changes liveness: in particular a stale one stays stale.
            forall|x: EntityId| x != r ==> #[trigger] final(self).live_id(x) == old(self).live_id(x),
            // Reuse is lowest-index-first: every slot below the one taken is live.
            forall|j: int| 0 <= j < r.idx() ==> #[trigger] old(self).flags()[j],
            r.idx() < old(self).n() ==> !old(self).flags()[r.idx() as int],
            final(self).n() == if r.idx() < old(self).n() { old(self).n() } else { old(self).n() + 1 },
            final(self).flags() == set_at(old(self).flags(), r.idx() as int, true),
            final(self).gens() == set_at(old(self).gens(), r.idx() as int, if r.idx() < old(self).n() { old(self).gens()[r.idx() as int] } else { 0u32 }),
            final(self).live_count() == old(self).live_count() + 1,
            final(self).free_list() == if old(self).free_list().len() > 0 { old(self).free_list().drop_last() } else { old(self).free_list() },
            final(self).kinds() == set_at(old(self).kinds(), r.idx() as int, kind),
            final(self).owners() == set_at(old(self).owners(), r.idx() as int, owner),
            final(self).positions() == set_at(old(self).positions(), r.idx() as int, pos),
            final(self).healths() == set_at(old(self).healths(), r.idx() as int, health),
            final(self).move_targets() == set_at(old(self).move_targets(), r.idx() as int, None),
            final(self).resources() == set_at(old(self).resources(), r.idx() as int, 0i32),
            final(self).facings() == set_at(old(self).facings(), r.idx() as int, 1u8),
            final(self).orders() == set_at(old(self).orders(), r.idx() as int, Order::Idle),
            final(self).navs() == set_at(old(self).navs(), r.idx() as int, None),
            final(self).carries() == set_at(old(self).carries(), r.idx() as int, None),
            final(self).constructions() == set_at(old(self).constructions(), r.idx() as int, None),
            final(self).productions() == set_at(old(self).productions(), r.idx() as int, None),
            final(self).works() == set_at(old(self).works(), r.idx() as int, Fx(0)),
            final(self).stances() == set_at(old(self).stances(), r.idx() as int, if kind == crate::kinds::VILLAGER { Stance::Passive } else { Stance::Defensive }),
            final(self).formations() == set_at(old(self).formations(), r.idx() as int, if kind == crate::kinds::VILLAGER { Formation::Spread } else { Formation::Line }),
            final(self).reloads() == set_at(old(self).reloads(), r.idx() as int, 0u16),
            final(self).dyings() == set_at(old(self).dyings(), r.idx() as int, 0u16),
    {
        self.spawn_with_resource(kind, owner, pos, health, 0)
    }

    /// Creates an entity carrying `resource` units of whatever its kind
    /// yields. It takes the lowest free slot, or a new one past the end.
    #[verifier::rlimit(60)]
    pub fn spawn_with_resource(&mut self, kind: u16, owner: u8, pos: Vec2Fx, health: Fx, resource: i32) -> (r: EntityId)
        requires
            old(self).wf(),
            old(self).n() < u32::MAX,
        ensures
            final(self).wf(),
            r.idx() == spawn_slot(old(self)),
            final(self).live_id(r),
            forall|x: EntityId| x != r ==> #[trigger] final(self).live_id(x) == old(self).live_id(x),
            forall|j: int| 0 <= j < r.idx() ==> #[trigger] old(self).flags()[j],
            r.idx() < old(self).n() ==> !old(self).flags()[r.idx() as int],
            final(self).n() == if r.idx() < old(self).n() { old(self).n() } else { old(self).n() + 1 },
            final(self).flags() == set_at(old(self).flags(), r.idx() as int, true),
            final(self).gens() == set_at(old(self).gens(), r.idx() as int, if r.idx() < old(self).n() { old(self).gens()[r.idx() as int] } else { 0u32 }),
            final(self).live_count() == old(self).live_count() + 1,
            final(self).free_list() == if old(self).free_list().len() > 0 { old(self).free_list().drop_last() } else { old(self).free_list() },
            final(self).kinds() == set_at(old(self).kinds(), r.idx() as int, kind),
            final(self).owners() == set_at(old(self).owners(), r.idx() as int, owner),
            final(self).positions() == set_at(old(self).positions(), r.idx() as int, pos),
            final(self).healths() == set_at(old(self).healths(), r.idx() as int, health),
            final(self).move_targets() == set_at(old(self).move_targets(), r.idx() as int, None),
            final(self).resources() == set_at(old(self).resources(), r.idx() as int, resource),
            final(self).facings() == set_at(old(self).facings(), r.idx() as int, 1u8),
            final(self).orders() == set_at(old(self).orders(), r.idx() as int, Order::Idle),
            final(self).navs() == set_at(old(self).navs(), r.idx() as int, None),
            final(self).carries() == set_at(old(self).carries(), r.idx() as int, None),
            final(self).constructions() == set_at(old(self).constructions(), r.idx() as int, None),
            final(self).productions() == set_at(old(self).productions(), r.idx() as int, None),
            final(self).works() == set_at(old(self).works(), r.idx() as int, Fx(0)),
            final(self).stances() == set_at(old(self).stances(), r.idx() as int, if kind == crate::kinds::VILLAGER { Stance::Passive } else { Stance::Defensive }),
            final(self).formations() == set_at(old(self).formations(), r.idx() as int, if kind == crate::kinds::VILLAGER { Formation::Spread } else { Formation::Line }),
            final(self).reloads() == set_at(old(self).reloads(), r.idx() as int, 0u16),
            final(self).dyings() == set_at(old(self).dyings(), r.idx() as int, 0u16),
    {
        proof {
            self.lemma_free_facts();
            lemma_count_le(self.flags());
        }
        let ghost w0 = *self;
        self.live = self.live + 1;
        if self.free.len() > 0 {
            let slot = self.free.pop().unwrap();
            let i = slot as usize;
            proof {
                assert(w0.free_list()[w0.free_list().len() - 1] == slot);
                assert forall|j: int| 0 <= j < i implies #[trigger] w0.flags()[j] by {
                    if !w0.flags()[j] {
                        assert(w0.free_list().contains(j as u32));
                        let k = choose|k: int| 0 <= k < w0.free_list().len() && w0.free_list()[k] == j as u32;
                        if k < w0.free_list().len() - 1 {
                            assert(w0.free_list()[k] > w0.free_list()[w0.free_list().len() - 1]);
                        }
                    }
                }
                lemma_count_update(w0.flags(), i as int, true);
            }
            self.alive.set(i, true);
            self.kind.set(i, kind);
            self.owner.set(i, owner);
            self.pos.set(i, pos);
            self.health.set(i, health);
            self.move_target.set(i, None);
            self.resource.set(i, resource);
            self.facing.set(i, 1);
            self.order.set(i, Order::Idle);
            self.nav.set(i, None);
            self.carry.set(i, None);
            self.construction.set(i, None);
            self.production.set(i, None);
            self.work.set(i, Fx::ZERO());
            self.stance.set(i, Stance::default_for(kind));
            self.formation.set(i, Formation::default_for(kind));
            self.reload.set(i, 0);
            self.dying.set(i, 0);
            let r = EntityId { index: slot, generation: self.generation[i] };
            proof {
                assert forall|x: EntityId| x != r implies #[trigger] self.live_id(x) == w0.live_id(x) by {
                    EntityId::lemma_eq(x, r);
                }
                let fl = self.free_list();
                assert forall|k: int| 0 <= k < fl.len() implies #[trigger] fl[k] < self.n()
                    && !self.flags()[fl[k] as int] by {
                    assert(fl[k] == w0.free_list()[k]);
                    assert(w0.free_list()[k] > w0.free_list()[w0.free_list().len() - 1]);
                }
                assert forall|j: int| 0 <= j < self.n() && !#[trigger] self.flags()[j] implies fl.contains(j as u32)
                    && self.scrubbed(j) by {
                    assert(j != i);
                    assert(!w0.flags()[j]);
                    assert(w0.free_list().contains(j as u32));
                    let k = choose|k: int| 0 <= k < w0.free_list().len() && w0.free_list()[k] == j as u32;
                    assert(k != w0.free_list().len() - 1);
                    assert(fl[k] == j as u32);
                    assert(w0.scrubbed(j));
                }
            }
            r
        } else {
            let i = self.alive.len();
            self.generation.push(0);
            self.alive.push(true);
            self.kind.push(kind);
            self.owner.push(owner);
            self.pos.push(pos);
            self.health.push(health);
            self.move_target.push(None);
            self.resource.push(resource);
            self.facing.push(1);
            self.order.push(Order::Idle);
            self.nav.push(None);
            self.carry.push(None);
            self.construction.push(None);
            self.production.push(None);
            self.work.push(Fx::ZERO());
            self.stance.push(Stance::default_for(kind));
            self.formation.push(Formation::default_for(kind));
            self.reload.push(0);
            self.dying.push(0);
            proof {
                assert(self.flags().drop_last() =~= w0.flags());
                assert forall|j: int| 0 <= j < i implies #[trigger] w0.flags()[j] by {
                    if !w0.flags()[j] {
                        assert(w0.free_list().contains(j as u32));
                    }
                }
                assert forall|j: int| 0 <= j < self.n() && !#[trigger] self.flags()[j] implies self.free_list().contains(j as u32)
                    && self.scrubbed(j) by {
                    assert(j < i);
                    assert(!w0.flags()[j]);
                    assert(w0.scrubbed(j));
                }
            }
            let r = EntityId { index: i as u32, generation: 0 };
            proof {
                assert forall|x: EntityId| x != r implies #[trigger] self.live_id(x) == w0.live_id(x) by {
                    EntityId::lemma_eq(x, r);
                }
            }
            r
        }
    }
}

impl World {
    /// Removes an entity. Returns false, and changes nothing, if the handle
    /// was already stale. Otherwise the slot is scrubbed, its generation
    /// moves on, and it joins the free list in descending order.
    #[verifier::rlimit(60)]
    pub fn despawn(&mut self, id: EntityId) -> (r: bool)
        requires
            old(self).wf(),
        ensures
            final(self).wf(),
            r == old(self).live_id(id),
            !r ==> *final(self) == *old(self),
            r ==> !final(self).live_id(id) && final(self).gens()[id.idx() as int] != id.gen(),
            forall|x: EntityId| x != id ==> #[trigger] final(self).live_id(x) == old(self).live_id(x),
            r ==> despawn_result(*old(self), id, *final(self)),
    {
        proof {
            self.lemma_free_facts();
        }
        let ghost w0 = *self;
        let slot = match self.slot(id) {
            Some(s) => s,
            None => {
                return false;
            },
        };
        proof {
            assert(w0.gens()[id.idx() as int] == id.gen());
            let g = id.gen();
            assert(g.wrapping_add(1) != g) by (bit_vector);
        }
        let i = slot.0;
        let idx = id.index;
        proof {
            lemma_count_update(w0.flags(), i as int, false);
            assert(!w0.free_list().contains(idx)) by {
                if w0.free_list().contains(idx) {
                    let k = choose|k: int| 0 <= k < w0.free_list().len() && w0.free_list()[k] == idx;
                    assert(!w0.flags()[w0.free_list()[k] as int]);
                }
            }
        }
        self.alive.set(i, false);
        let g = self.generation[i].wrapping_add(1);
        self.generation.set(i, g);
        self.kind.set(i, 0);
        self.owner.set(i, 0);
        self.pos.set(i, Vec2Fx::ZERO());
        self.health.set(i, Fx::ZERO());
        self.move_target.set(i, None);
        self.resource.set(i, 0);
        self.facing.set(i, 0);
        self.order.set(i, Order::Idle);
        self.nav.set(i, None);
        self.carry.set(i, None);
        self.construction.set(i, None);
        self.production.set(i, None);
        self.work.set(i, Fx::ZERO());
        self.stance.set(i, Stance::Defensive);
        self.formation.set(i, Formation::Spread);
        self.reload.set(i, 0);
        self.dying.set(i, 0);
        self.live = self.live - 1;
        // Keep `free` sorted descending: insert before the first entry
        // below the freed slot.
        let mut at: usize = 0;
        while at < self.free.len() && self.free[at] > idx
            invariant
                self.free@ == w0.free_list(),
                at <= self.free@.len(),
                forall|k: int| 0 <= k < at ==> #[trigger] self.free@[k] > idx,
            decreases self.free.len() - at,
        {
            at = at + 1;
        }
        let ghost f0 = self.free@;
        self.free.insert(at, idx);
        proof {
            let fl = self.free_list();
            assert(fl =~= f0.insert(at as int, idx));
            assert forall|k: int| at <= k < f0.len() implies #[trigger] f0[k] < idx by {
                if at < f0.len() {
                    assert(f0[at as int] <= idx);
                    assert(f0[at as int] != idx) by {
                        assert(w0.free_list().contains(f0[at as int]));
                    }
                    if k > at {
                        assert(f0[at as int] > f0[k]);
                    }
                }
            }
            assert forall|a: int, b: int| 0 <= a < b < fl.len() implies fl[a] > fl[b] by {
                if b < at {
                } else if a < at && b == at {
                } else if a < at {
                    assert(fl[b] == f0[b - 1]);
                } else if a == at {
                    assert(fl[b] == f0[b - 1]);
                } else {
                    assert(fl[a] == f0[a - 1]);
                    assert(fl[b] == f0[b - 1]);
                }
            }
            assert forall|x: u32| #[trigger] fl.contains(x) <==> (f0.contains(x) || x == idx) by {
                if fl.contains(x) {
                    let k = choose|k: int| 0 <= k < fl.len() && fl[k] == x;
                    if k < at {
                        assert(f0[k] == x);
                    } else if k > at {
                        assert(f0[k - 1] == x);
                    }
                }
                if f0.contains(x) {
                    let k = choose|k: int| 0 <= k < f0.len() && f0[k] == x;
                    if k < at {
                        assert(fl[k] == x);
                    } else {
                        assert(fl[k + 1] == x);
                    }
                }
                if x == idx {
                    assert(fl[at as int] == x);
                }
            }
            assert forall|k: int| 0 <= k < fl.len() implies #[trigger] fl[k] < self.n()
                && !self.flags()[fl[k] as int] by {
                if k < at {
                    assert(fl[k] == f0[k]);
                } else if k > at {
                    assert(fl[k] == f0[k - 1]);
                }
            }
            assert forall|x: EntityId| x != id implies #[trigger] self.live_id(x) == w0.live_id(x) by {
                EntityId::lemma_eq(x, id);
            }
            assert forall|j: int| 0 <= j < self.n() && !#[trigger] self.flags()[j] implies fl.contains(j as u32)
                && self.scrubbed(j) by {
                if j != i {
                    assert(!w0.flags()[j]);
                    assert(w0.free_list().contains(j as u32));
                    assert(w0.scrubbed(j));
                }
            }
        }
        true
    }
}

/// Each entry is above the next.
pub open spec fn steps_down(s: Seq<u32>) -> bool {
    forall|k: int| 0 <= k < s.len() - 1 ==> #[trigger] s[k] > s[k + 1]
}

/// Stepping down entry by entry is the same as being strictly descending.
pub proof fn lemma_steps_down(s: Seq<u32>)
    requires
        steps_down(s),
    ensures
        forall|a: int, b: int| 0 <= a < b < s.len() ==> s[a] > s[b],
{
    assert forall|a: int, b: int| 0 <= a < b < s.len() implies s[a] > s[b] by {
        lemma_steps_down_from(s, a, b);
    }
}

proof fn lemma_steps_down_from(s: Seq<u32>, a: int, b: int)
    requires
        steps_down(s),
        0 <= a < b < s.len(),
    ensures
        s[a] > s[b],
    decreases b - a,
{
    if b > a + 1 {
        lemma_steps_down_from(s, a + 1, b);
        assert(s[a] > s[a + 1]);
    }
}

impl World {
    /// The first stage of [`World::check`]: every column has one row per slot.
    pub open spec fn stage_columns(&self) -> bool {
        self.cols_ok()
    }

    /// The second stage: the cached live count is right.
    pub open spec fn stage_count(&self) -> bool {
        self.cols_ok() && self.live_count() == count_true(self.flags())
    }

    /// The third stage: the free list is strictly descending.
    pub open spec fn stage_sorted(&self) -> bool {
        self.stage_count() && self.free_sorted()
    }

    /// The fourth stage: every free slot exists and is dead.
    pub open spec fn stage_free(&self) -> bool {
        &&& self.stage_sorted()
        &&& forall|k: int| 0 <= k < self.free_list().len() ==> #[trigger] self.free_list()[k] < self.n()
            && !self.flags()[self.free_list()[k] as int]
    }

    /// Slot `i`, if dead, is free and scrubbed.
    pub open spec fn dead_ok(&self, i: int) -> bool {
        !self.flags()[i] ==> self.free_list().contains(i as u32) && self.scrubbed(i)
    }

    proof fn lemma_wf_stages(&self)
        ensures
            self.wf() <==> (self.stage_free() && forall|i: int| 0 <= i < self.n() ==> #[trigger] self.dead_ok(i)),
    {
        if self.stage_free() && forall|i: int| 0 <= i < self.n() ==> #[trigger] self.dead_ok(i) {
            assert forall|i: int| 0 <= i < self.n() && !#[trigger] self.flags()[i] implies self.free_list().contains(i as u32)
                && self.scrubbed(i) by {
                assert(self.dead_ok(i));
            }
        }
        if self.wf() {
            assert forall|i: int| 0 <= i < self.n() implies #[trigger] self.dead_ok(i) by {
                if !self.flags()[i] {
                }
            }
        }
    }

    /// The first column of slot `i` that still holds something, in the
    /// order the scrub contract lists them; `None` when it is scrubbed.
    fn unscrubbed_column(&self, i: usize) -> (r: Option<&'static str>)
        requires
            self.cols_ok(),
            i < self.n(),
        ensures
            r is None <==> self.scrubbed(i as int),
    {
        if !(self.stance[i] == Stance::Defensive) {
            return Some("stance");
        }
        if !(self.formation[i] == Formation::Spread) {
            return Some("formation");
        }
        if self.reload[i] != 0 {
            return Some("reload");
        }
        if self.dying[i] != 0 {
            return Some("dying");
        }
        if self.kind[i] != 0 {
            return Some("kind");
        }
        if self.owner[i] != 0 {
            return Some("owner");
        }
        if !(self.pos[i] == Vec2Fx::ZERO()) {
            return Some("pos");
        }
        if !(self.health[i] == Fx::ZERO()) {
            return Some("health");
        }
        if self.move_target[i].is_some() {
            return Some("move_target");
        }
        if self.resource[i] != 0 {
            return Some("resource");
        }
        if self.facing[i] != 0 {
            return Some("facing");
        }
        if !matches!(self.order[i], Order::Idle) {
            return Some("order");
        }
        if self.nav[i].is_some() {
            return Some("nav");
        }
        if self.carry[i].is_some() {
            return Some("carry");
        }
        if self.construction[i].is_some() {
            return Some("construction");
        }
        if self.production[i].is_some() {
            return Some("production");
        }
        if !(self.work[i] == Fx::ZERO()) {
            return Some("work");
        }
        None
    }

    /// The first column whose length is not `n`, with that length.
    fn ragged_column(&self) -> (r: Option<(&'static str, usize)>)
        ensures
            r is None <==> self.cols_ok(),
            r matches Some((_, len)) ==> len != self.n(),
    {
        let n = self.alive.len();
        if self.stance.len() != n {
            return Some(("stance", self.stance.len()));
        }
        if self.formation.len() != n {
            return Some(("formation", self.formation.len()));
        }
        if self.reload.len() != n {
            return Some(("reload", self.reload.len()));
        }
        if self.dying.len() != n {
            return Some(("dying", self.dying.len()));
        }
        if self.generation.len() != n {
            return Some(("generation", self.generation.len()));
        }
        if self.kind.len() != n {
            return Some(("kind", self.kind.len()));
        }
        if self.owner.len() != n {
            return Some(("owner", self.owner.len()));
        }
        if self.pos.len() != n {
            return Some(("pos", self.pos.len()));
        }
        if self.health.len() != n {
            return Some(("health", self.health.len()));
        }
        if self.move_target.len() != n {
            return Some(("move_target", self.move_target.len()));
        }
        if self.resource.len() != n {
            return Some(("resource", self.resource.len()));
        }
        if self.facing.len() != n {
            return Some(("facing", self.facing.len()));
        }
        if self.order.len() != n {
            return Some(("order", self.order.len()));
        }
        if self.nav.len() != n {
            return Some(("nav", self.nav.len()));
        }
        if self.carry.len() != n {
            return Some(("carry", self.carry.len()));
        }
        if self.construction.len() != n {
            return Some(("construction", self.construction.len()));
        }
        if self.production.len() != n {
            return Some(("production", self.production.len()));
        }
        if self.work.len() != n {
            return Some(("work", self.work.len()));
        }
        None
    }

    /// Verifies every structural invariant of the store, stopping at the
    /// first that fails: column lengths, then the live count, then the
    /// order of the free list, then each free slot in list order, then each
    /// dead slot in index order.
    #[verifier::rlimit(40)]
    pub fn check(&self) -> (r: Result<(), WorldViolation>)
        requires
            self.n() <= u32::MAX,
        ensures
            world_verdict(*self, r),
    {
        proof {
            self.lemma_wf_stages();
        }
        let n = self.alive.len();
        match self.ragged_column() {
            Some((column, len)) => {
                return Err(WorldViolation::RaggedColumns { column, len, expected: n });
            },
            None => {},
        }
        let mut counted: u32 = 0;
        let mut c: usize = 0;
        while c < n
            invariant
                n == self.n(),
                n <= u32::MAX,
                c <= n,
                counted == count_true(self.flags().take(c as int)),
                counted <= c,
            decreases n - c,
        {
            proof {
                assert(self.flags().take(c + 1).drop_last() =~= self.flags().take(c as int));
            }
            if self.alive[c] {
                counted = counted + 1;
            }
            c = c + 1;
        }
        proof {
            assert(self.flags().take(n as int) =~= self.flags());
        }
        if counted != self.live {
            return Err(WorldViolation::LiveCountWrong { cached: self.live, counted });
        }
        let fl = self.free.len();
        let mut at: usize = 0;
        while fl > 0 && at < fl - 1
            invariant
                self.stage_count(),
                fl == self.free_list().len(),
                at <= fl,
                forall|k: int| 0 <= k < at && k + 1 < fl ==> #[trigger] self.free_list()[k] > self.free_list()[k + 1],
            decreases fl - at,
        {
            if self.free[at] <= self.free[at + 1] {
                return Err(WorldViolation::FreeListUnsorted { at });
            }
            at = at + 1;
        }
        proof {
            assert(steps_down(self.free_list()));
            lemma_steps_down(self.free_list());
        }
        let mut is_free: Vec<bool> = Vec::new();
        let mut z: usize = 0;
        while z < n
            invariant
                z <= n,
                is_free@.len() == z,
                forall|j: int| 0 <= j < z ==> !#[trigger] is_free@[j],
            decreases n - z,
        {
            is_free.push(false);
            z = z + 1;
        }
        let mut k: usize = 0;
        while k < fl
            invariant
                self.stage_sorted(),
                n == self.n(),
                fl == self.free_list().len(),
                k <= fl,
                is_free@.len() == n,
                k > 0 ==> self.free_list()[0] < n,
                forall|j: int| 0 <= j < k ==> #[trigger] self.free_list()[j] < n
                    && !self.flags()[self.free_list()[j] as int],
                forall|i: int| 0 <= i < n ==> (#[trigger] is_free@[i] <==> exists|j: int| 0 <= j < k
                    && self.free_list()[j] == i),
            decreases fl - k,
        {
            let slot = self.free[k];
            let i = slot as usize;
            if i >= n {
                proof {
                    if k > 0 {
                        assert(self.free_list()[0] > self.free_list()[k as int]);
                    }
                }
                return Err(WorldViolation::FreeSlotOutOfRange { slot });
            }
            if is_free[i] {
                proof {
                    let j = choose|j: int| 0 <= j < k && self.free_list()[j] == i;
                    assert(self.free_list()[j] > self.free_list()[k as int]);
                }
                return Err(WorldViolation::FreeListDuplicate { slot });
            }
            if self.alive[i] {
                proof {
                    assert(self.free_list()[0] < n) by {
                        if k > 0 {
                        } else {
                        }
                    }
                }
                return Err(WorldViolation::FreeSlotIsLive { slot });
            }
            let ghost before = is_free@;
            is_free.set(i, true);
            proof {
                assert forall|x: int| 0 <= x < n implies (#[trigger] is_free@[x] <==> exists|j: int| 0 <= j < k + 1
                    && self.free_list()[j] == x) by {
                    if x == i {
                        assert(self.free_list()[k as int] == x);
                    } else if is_free@[x] {
                        assert(before[x]);
                        let j = choose|j: int| 0 <= j < k && self.free_list()[j] == x;
                        assert(0 <= j < k + 1 && self.free_list()[j] == x);
                    } else {
                        assert(!before[x]);
                    }
                }
            }
            k = k + 1;
        }
        assert(self.stage_free());
        let mut i: usize = 0;
        while i < n
            invariant
                self.stage_free(),
                n == self.n(),
                n <= u32::MAX,
                i <= n,
                is_free@.len() == n,
                forall|x: int| 0 <= x < n ==> (#[trigger] is_free@[x] <==> self.free_list().contains(x as u32)),
                forall|j: int| 0 <= j < i ==> #[trigger] self.dead_ok(j),
            decreases n - i,
        {
            if !self.alive[i] {
                if !is_free[i] {
                    return Err(WorldViolation::SlotLeaked { slot: i as u32 });
                }
                match self.unscrubbed_column(i) {
                    Some(column) => {
                        return Err(WorldViolation::DeadSlotNotScrubbed { slot: i as u32, column });
                    },
                    None => {},
                }
            }
            i = i + 1;
        }
        Ok(())
    }
}

/// The bytes of what a villager carries: a tag, then the amount.
pub open spec fn carry_bytes(c: Option<(Resource, i32)>) -> Seq<u8> {
    match c {
        None => seq![0u8],
        Some((r, n)) => seq![(1 + resource_index(r)) as u8] + le_i32(n),
    }
}

fn write_carry(h: &mut StateHasher, c: Option<(Resource, i32)>)
    ensures
        final(h)@ == fnv(old(h)@, carry_bytes(c)),
{
    match c {
        None => h.write_u8(0),
        Some((r, n)) => {
            let ghost h0 = h@;
            let tag = 1 + r.index() as u8;
            h.write_u8(tag);
            h.write_i32(n);
            proof {
                lemma_fnv_append(h0, seq![tag], le_i32(n));
            }
        },
    }
}

/// The bytes of a live slot's components, in column order.
pub open spec fn live_row_bytes(w: &World, i: int) -> Seq<u8> {
    le16(w.kinds()[i as int]) + seq![w.owners()[i as int]] + w.positions()[i as int].state_bytes() + w.healths()[i as int].state_bytes() + option_bytes(w.move_targets()[i as int]) + le_i32(w.resources()[i as int]) + seq![w.facings()[i as int]] + order_bytes(w.orders()[i as int]) + option_bytes(w.navs()[i as int]) + carry_bytes(w.carries()[i as int]) + option_bytes(w.constructions()[i as int]) + option_bytes(w.productions()[i as int]) + w.works()[i as int].state_bytes() + seq![stance_code(w.stances()[i as int])] + seq![formation_code(w.formations()[i as int])] + le16(w.reloads()[i as int]) + le16(w.dyings()[i as int])
}

/// The bytes of one slot: whether it is live, its generation, and, only
/// when live, its components. Dead slots contribute no component data.
pub open spec fn row_bytes(w: &World, i: int) -> Seq<u8> {
    bool_byte(w.flags()[i]) + le32(w.gens()[i]) + if w.flags()[i] { live_row_bytes(w, i) } else { Seq::empty() }
}

/// The bytes of the first `k` slots.
pub open spec fn rows_bytes(w: &World, k: nat) -> Seq<u8>
    decreases k,
{
    if k == 0 { Seq::empty() } else { rows_bytes(w, (k - 1) as nat) + row_bytes(w, k - 1) }
}

/// The bytes of a world: the live count, the slot count, then every slot.
pub open spec fn world_bytes(w: &World) -> Seq<u8> {
    le32(w.live_count()) + le64(w.n() as u64) + rows_bytes(w, w.n() as nat)
}

/// `a` and `b` hold the same live state: the same slots, liveness,
/// generations and live count, and the same components in every live slot.
/// Dead slots and the free list may differ.
pub open spec fn same_live(a: World, b: World) -> bool {
    &&& b.n() == a.n()
    &&& b.live_count() == a.live_count()
    &&& b.flags().len() == a.flags().len()
    &&& b.gens().len() == a.gens().len()
    &&& forall|i: int| 0 <= i < a.n() ==> #[trigger] b.flags()[i] == a.flags()[i]
    &&& forall|i: int| 0 <= i < a.n() ==> #[trigger] b.gens()[i] == a.gens()[i]
    &&& forall|i: int| 0 <= i < a.n() && #[trigger] a.flags()[i] ==> {
        &&& b.kinds()[i] == a.kinds()[i]
        &&& b.owners()[i] == a.owners()[i]
        &&& b.positions()[i] == a.positions()[i]
        &&& b.healths()[i] == a.healths()[i]
        &&& b.move_targets()[i] == a.move_targets()[i]
        &&& b.resources()[i] == a.resources()[i]
        &&& b.facings()[i] == a.facings()[i]
        &&& b.orders()[i] == a.orders()[i]
        &&& b.navs()[i] == a.navs()[i]
        &&& b.carries()[i] == a.carries()[i]
        &&& b.constructions()[i] == a.constructions()[i]
        &&& b.productions()[i] == a.productions()[i]
        &&& b.works()[i] == a.works()[i]
        &&& b.stances()[i] == a.stances()[i]
        &&& b.formations()[i] == a.formations()[i]
        &&& b.reloads()[i] == a.reloads()[i]
        &&& b.dyings()[i] == a.dyings()[i]
    }
}

/// The state hash reads only the live state: two stores with the same live
/// state hash to the same bytes, whatever their histories left in dead
/// slots or in the free list.
pub proof fn lemma_hash_ignores_history(a: World, b: World)
    requires
        same_live(a, b),
    ensures
        world_bytes(&a) == world_bytes(&b),
{
    lemma_rows_same(a, b, a.n() as nat);
}

proof fn lemma_rows_same(a: World, b: World, k: nat)
    requires
        same_live(a, b),
        k <= a.n(),
    ensures
        rows_bytes(&a, k) == rows_bytes(&b, k),
    decreases k,
{
    if k > 0 {
        lemma_rows_same(a, b, (k - 1) as nat);
        let i = k - 1;
        assert(b.flags()[i] == a.flags()[i]);
        assert(b.gens()[i] == a.gens()[i]);
        if a.flags()[i] {
            assert(live_row_bytes(&a, i) == live_row_bytes(&b, i));
        }
        assert(row_bytes(&a, i) == row_bytes(&b, i));
    }
}

impl World {
    fn hash_live_row(&self, i: usize, h: &mut StateHasher)
        requires
            self.cols_ok(),
            i < self.n(),
        ensures
            final(h)@ == fnv(old(h)@, live_row_bytes(self, i as int)),
    {
        let ghost h0 = h@;
        let ghost mut acc: Seq<u8> = Seq::empty();
        assert(fnv(h0, acc) == h0);
        h.write_u16(self.kind[i]);
        proof {
            lemma_fnv_append(h0, acc, le16(self.kinds()[i as int]));
            acc = acc + le16(self.kinds()[i as int]);
        }
        h.write_u8(self.owner[i]);
        proof {
            lemma_fnv_append(h0, acc, seq![self.owners()[i as int]]);
            acc = acc + seq![self.owners()[i as int]];
        }
        h.write(&self.pos[i]);
        proof {
            lemma_fnv_append(h0, acc, self.positions()[i as int].state_bytes());
            acc = acc + self.positions()[i as int].state_bytes();
        }
        h.write(&self.health[i]);
        proof {
            lemma_fnv_append(h0, acc, self.healths()[i as int].state_bytes());
            acc = acc + self.healths()[i as int].state_bytes();
        }
        h.write(&self.move_target[i]);
        proof {
            lemma_fnv_append(h0, acc, option_bytes(self.move_targets()[i as int]));
            acc = acc + option_bytes(self.move_targets()[i as int]);
        }
        h.write_i32(self.resource[i]);
        proof {
            lemma_fnv_append(h0, acc, le_i32(self.resources()[i as int]));
            acc = acc + le_i32(self.resources()[i as int]);
        }
        h.write_u8(self.facing[i]);
        proof {
            lemma_fnv_append(h0, acc, seq![self.facings()[i as int]]);
            acc = acc + seq![self.facings()[i as int]];
        }
        h.write(&self.order[i]);
        proof {
            lemma_fnv_append(h0, acc, order_bytes(self.orders()[i as int]));
            acc = acc + order_bytes(self.orders()[i as int]);
        }
        h.write(&self.nav[i]);
        proof {
            lemma_fnv_append(h0, acc, option_bytes(self.navs()[i as int]));
            acc = acc + option_bytes(self.navs()[i as int]);
        }
        write_carry(h, self.carry[i]);
        proof {
            lemma_fnv_append(h0, acc, carry_bytes(self.carries()[i as int]));
            acc = acc + carry_bytes(self.carries()[i as int]);
        }
        h.write(&self.construction[i]);
        proof {
            lemma_fnv_append(h0, acc, option_bytes(self.constructions()[i as int]));
            acc = acc + option_bytes(self.constructions()[i as int]);
        }
        h.write(&self.production[i]);
        proof {
            lemma_fnv_append(h0, acc, option_bytes(self.productions()[i as int]));
            acc = acc + option_bytes(self.productions()[i as int]);
        }
        h.write(&self.work[i]);
        proof {
            lemma_fnv_append(h0, acc, self.works()[i as int].state_bytes());
            acc = acc + self.works()[i as int].state_bytes();
        }
        h.write_u8(self.stance[i].code());
        proof {
            lemma_fnv_append(h0, acc, seq![stance_code(self.stances()[i as int])]);
            acc = acc + seq![stance_code(self.stances()[i as int])];
        }
        h.write_u8(self.formation[i].code());
        proof {
            lemma_fnv_append(h0, acc, seq![formation_code(self.formations()[i as int])]);
            acc = acc + seq![formation_code(self.formations()[i as int])];
        }
        h.write_u16(self.reload[i]);
        proof {
            lemma_fnv_append(h0, acc, le16(self.reloads()[i as int]));
            acc = acc + le16(self.reloads()[i as int]);
        }
        h.write_u16(self.dying[i]);
        proof {
            lemma_fnv_append(h0, acc, le16(self.dyings()[i as int]));
            acc = acc + le16(self.dyings()[i as int]);
        }
        assert(acc =~= live_row_bytes(self, i as int));
    }

    /// Feeds the world's state to a hasher: the live count, the slot count,
    /// then per slot its liveness, generation and, when live, every column.
    pub fn hash_state(&self, h: &mut StateHasher)
        requires
            self.cols_ok(),
        ensures
            final(h)@ == fnv(old(h)@, world_bytes(self)),
    {
        let ghost h0 = h@;
        h.write_u32(self.live);
        let n = self.alive.len();
        h.write_u64(n as u64);
        proof {
            lemma_fnv_append(h0, le32(self.live), le64(n as u64));
        }
        let ghost h1 = h@;
        let mut i: usize = 0;
        while i < n
            invariant
                self.cols_ok(),
                n == self.n(),
                i <= n,
                h@ == fnv(h1, rows_bytes(self, i as nat)),
            decreases n - i,
        {
            let ghost hr = h@;
            h.write_bool(self.alive[i]);
            h.write_u32(self.generation[i]);
            proof {
                lemma_fnv_append(hr, bool_byte(self.flags()[i as int]), le32(self.gens()[i as int]));
            }
            if self.alive[i] {
                let ghost hm = h@;
                self.hash_live_row(i, h);
                proof {
                    lemma_fnv_append(hr, bool_byte(self.flags()[i as int]) + le32(self.gens()[i as int]), live_row_bytes(self, i as int));
                }
            } else {
                assert(bool_byte(self.flags()[i as int]) + le32(self.gens()[i as int]) =~= row_bytes(self, i as int));
            }
            proof {
                lemma_fnv_append(h1, rows_bytes(self, i as nat), row_bytes(self, i as int));
            }
            i = i + 1;
        }
        proof {
            lemma_fnv_append(h0, le32(self.live) + le64(n as u64), rows_bytes(self, n as nat));
        }
    }
}

/// The hash sees a world's live state and not its history: two worlds with
/// the same slots, generations and live count, whose live slots hold the
/// same components, hash the same bytes whatever their dead slots hold.
pub proof fn lemma_hash_ignores_dead_slots(a: &World, b: &World)
    requires
        a.flags() == b.flags(),
        a.gens() == b.gens(),
        a.live_count() == b.live_count(),
        forall|i: int| 0 <= i < a.n() && #[trigger] a.flags()[i] ==> live_row_bytes(a, i) == live_row_bytes(b, i),
    ensures
        world_bytes(a) == world_bytes(b),
{
    lemma_rows_agree(a, b, a.n() as nat);
}

proof fn lemma_rows_agree(a: &World, b: &World, k: nat)
    requires
        k <= a.n(),
        a.flags() == b.flags(),
        a.gens() == b.gens(),
        forall|i: int| 0 <= i < a.n() && #[trigger] a.flags()[i] ==> live_row_bytes(a, i) == live_row_bytes(b, i),
    ensures
        rows_bytes(a, k) == rows_bytes(b, k),
    decreases k,
{
    if k > 0 {
        lemma_rows_agree(a, b, (k - 1) as nat);
        assert(row_bytes(a, k - 1) == row_bytes(b, k - 1));
    }
}

impl Default for World {
    /// An empty world.
    fn default() -> (r: World)
        ensures
            r.wf(),
            r.n() == 0,
            r.live_count() == 0,
    {
        World::new()
    }
}

} // verus!
