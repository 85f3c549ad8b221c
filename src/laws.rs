use vstd::prelude::*;
use crate::combat::{
    next_attacking, FORESWING_MS, ids_distinct, lemma_resolved_keeps, lemma_survivors_from, moved, resolved, strike_of, strikes,
    strikes_of, survivors, swings, swung, targeted,
};
use crate::simulation::{
    combat_tick, lemma_spawn_all_extends, lemma_spawn_all_wf, spawn_all, steps_to, Simulation, TickSummary,
};
use crate::world::{alive, Attacking, Entity, SpawnJitter, SpawnUnit};
use crate::inventory::filled;

verus! {

/// A unit that ends a combat tick in an attack cycle stood still during it: the store
/// the tick started from (spawns included) holds an entity with its id at the same
/// position. And a unit that starts a tick in an attack cycle is, if it survives, where
/// it was.
pub proof fn lemma_attackers_stand_still(es: Seq<Entity>, dt: u32)
    requires
        ids_distinct(es),
    ensures
        forall|i: int|
            0 <= i < combat_tick(es, dt).len() && (#[trigger] combat_tick(es, dt)[i]).attacking is Some ==> exists|
                j: int,
            |
                0 <= j < es.len() && es[j].id == combat_tick(es, dt)[i].id && es[j].position
                    == combat_tick(es, dt)[i].position,
        forall|i: int, j: int|
            0 <= i < combat_tick(es, dt).len() && 0 <= j < es.len() && es[j].attacking is Some
                && #[trigger] combat_tick(es, dt)[i].id == #[trigger] es[j].id ==> combat_tick(es, dt)[i].position
                == es[j].position,
{
    let engaged = targeted(es);
    let walked = moved(engaged, dt);
    let swung_es = swings(walked, dt);
    let hit = resolved(swung_es, strikes_of(walked, dt));
    let out = combat_tick(es, dt);
    lemma_survivors_from(hit);
    lemma_resolved_keeps(swung_es, strikes_of(walked, dt));
    assert forall|i: int| 0 <= i < out.len() && (#[trigger] out[i]).attacking is Some implies exists|j: int|
        0 <= j < es.len() && es[j].id == out[i].id && es[j].position == out[i].position by {
        let k = choose|k: int| 0 <= k < hit.len() && hit[k] == #[trigger] out[i];
        assert(swung_es[k].attacking is Some);
        assert(es[k].id == out[i].id && es[k].position == out[i].position);
    }
    assert forall|i: int, j: int|
        0 <= i < out.len() && 0 <= j < es.len() && es[j].attacking is Some && #[trigger] out[i].id
            == #[trigger] es[j].id implies out[i].position == es[j].position by {
        let k = choose|k: int| 0 <= k < hit.len() && hit[k] == #[trigger] out[i];
        assert(hit[k].id == es[k].id);
    }
}

/// `e` completes its wind-up in the attack phase: it goes from wind-up to recovery.
pub open spec fn completes_windup(e: Entity, dt: u32) -> bool {
    &&& e.attacking matches Some(Attacking::Foreswing(_))
    &&& swung(e, dt).attacking matches Some(Attacking::Backswing(_))
}

/// How many entities of `es` complete their wind-up in an attack phase of `dt`.
pub open spec fn windup_completions(es: Seq<Entity>, dt: u32) -> nat
    decreases es.len(),
{
    if es.len() == 0 {
        0
    } else {
        windup_completions(es.drop_last(), dt) + if completes_windup(es.last(), dt) {
            1nat
        } else {
            0nat
        }
    }
}

/// Strike `i` of the attack phase on `es` is that of a unit completing its wind-up.
pub open spec fn strike_from_windup(es: Seq<Entity>, dt: u32, i: int) -> bool {
    exists|k: int|
        #![trigger es[k]]
        0 <= k < es.len() && completes_windup(es[k], dt) && strikes_of(es, dt)[i] == strike_of(es[k])
}

/// The attack phase emits exactly one strike per wind-up that completes, whatever else is
/// on the field, and each strike is that of a unit completing its wind-up.
pub proof fn lemma_one_strike_per_windup(es: Seq<Entity>, dt: u32)
    ensures
        strikes_of(es, dt).len() == windup_completions(es, dt),
        forall|i: int| 0 <= i < strikes_of(es, dt).len() ==> #[trigger] strike_from_windup(es, dt, i),
    decreases es.len(),
{
    if es.len() > 0 {
        let init = es.drop_last();
        let rest = strikes_of(init, dt);
        lemma_one_strike_per_windup(init, dt);
        assert(strikes(es.last(), dt) == completes_windup(es.last(), dt));
        assert forall|i: int| 0 <= i < strikes_of(es, dt).len() implies #[trigger] strike_from_windup(
            es,
            dt,
            i,
        ) by {
            if i < rest.len() {
                assert(strike_from_windup(init, dt, i));
                let k = choose|k: int|
                    #![trigger init[k]]
                    0 <= k < init.len() && completes_windup(init[k], dt) && rest[i] == strike_of(init[k]);
                assert(es[k] == init[k]);
                assert(strikes_of(es, dt)[i] == rest[i]);
            } else {
                let k = es.len() - 1;
                assert(strikes_of(es, dt)[i] == strike_of(es[k]));
                assert(completes_windup(es[k], dt));
            }
        }
    }
}

/// Mortality is total: nothing dead is left after the sweep.
pub proof fn lemma_no_dead_survive(es: Seq<Entity>)
    ensures
        forall|i: int| 0 <= i < survivors(es).len() ==> alive(#[trigger] survivors(es)[i]),
{
    lemma_survivors_from(es);
}

/// Mortality is idempotent: sweeping twice removes nothing more.
pub proof fn lemma_mortality_idempotent(es: Seq<Entity>)
    ensures
        survivors(survivors(es)) == survivors(es),
{
    lemma_survivors_from(es);
    lemma_all_alive_survive(survivors(es));
}

/// A store of living entities loses nothing in the sweep.
proof fn lemma_all_alive_survive(es: Seq<Entity>)
    requires
        forall|i: int| 0 <= i < es.len() ==> alive(#[trigger] es[i]),
    ensures
        survivors(es) == es,
    decreases es.len(),
{
    if es.len() > 0 {
        let init = es.drop_last();
        assert forall|i: int| 0 <= i < init.len() implies alive(#[trigger] init[i]) by {
            assert(alive(es[i]));
        }
        lemma_all_alive_survive(init);
        assert(alive(es[es.len() - 1]));
        assert(init.push(es.last()) =~= es);
    }
}

/// No entity that a tick leaves dead is in the store after it, so it strikes in no later
/// tick: every strike of a tick comes from an entity of the store the tick started from.
pub proof fn lemma_dead_leave_the_store(es: Seq<Entity>, dt: u32)
    ensures
        forall|i: int| 0 <= i < combat_tick(es, dt).len() ==> alive(#[trigger] combat_tick(es, dt)[i]),
        forall|i: int|
            0 <= i < strikes_of(moved(targeted(es), dt), dt).len() ==> exists|k: int|
                0 <= k < es.len() && #[trigger] strikes_of(moved(targeted(es), dt), dt)[i].position
                    == moved(targeted(es), dt)[k].position && es[k].id == moved(targeted(es), dt)[k].id,
{
    let walked = moved(targeted(es), dt);
    lemma_no_dead_survive(resolved(swings(walked, dt), strikes_of(walked, dt)));
    lemma_one_strike_per_windup(walked, dt);
    assert forall|i: int| 0 <= i < strikes_of(walked, dt).len() implies exists|k: int|
        0 <= k < es.len() && #[trigger] strikes_of(walked, dt)[i].position == walked[k].position && es[k].id
            == walked[k].id by {
        assert(strike_from_windup(walked, dt, i));
        let k = choose|k: int|
            #![trigger walked[k]]
            0 <= k < walked.len() && completes_windup(walked[k], dt) && strikes_of(walked, dt)[i] == strike_of(
                walked[k],
            );
        assert(es[k].id == walked[k].id);
    }
}

/// A finished match is frozen: a tick changes nothing and emits no strike.
pub proof fn lemma_finished_match_frozen(
    before: Simulation,
    after: Simulation,
    dt: u32,
    requests: Seq<SpawnUnit>,
    jitter: Seq<SpawnJitter>,
    r: TickSummary,
)
    requires
        before.outcome() is Some,
        steps_to(before, after, dt, requests, jitter, r),
    ensures
        after == before,
        after.outcome() == before.outcome(),
        r.attacks@.len() == 0,
{
}

/// The total of the tick lengths `dts`.
pub open spec fn total_ms(dts: Seq<u32>) -> int
    decreases dts.len(),
{
    if dts.len() == 0 {
        0
    } else {
        total_ms(dts.drop_last()) + dts.last()
    }
}

/// A stock of `amount` under a cap of `limit` after accruing `rate` coins per second over
/// each tick of `dts` in turn, with no spending in between.
pub open spec fn accrued(amount: int, rate: int, dts: Seq<u32>, limit: int) -> int
    decreases dts.len(),
{
    if dts.len() == 0 {
        amount
    } else {
        filled(accrued(amount, rate, dts.drop_last(), limit), rate * dts.last(), limit)
    }
}

/// Accruing over a sequence of ticks gives the same stock as accruing over their total
/// time in one go, however the time is split: from an empty stock, `rate` coins per second
/// over 5 s leave `min(5 * rate, cap)` coins.
pub proof fn lemma_accrual_ignores_tick_split(amount: int, rate: int, dts: Seq<u32>, limit: int)
    requires
        0 <= amount <= limit,
        rate >= 0,
    ensures
        accrued(amount, rate, dts, limit) == filled(amount, rate * total_ms(dts), limit),
        0 <= accrued(amount, rate, dts, limit) <= limit,
    decreases dts.len(),
{
    if dts.len() > 0 {
        let init = dts.drop_last();
        lemma_accrual_ignores_tick_split(amount, rate, init, limit);
        lemma_total_nonneg(init);
        assert(rate * total_ms(dts) == rate * total_ms(init) + rate * dts.last()) by (nonlinear_arith)
            requires
                total_ms(dts) == total_ms(init) + dts.last(),
        ;
        assert(rate * dts.last() >= 0) by (nonlinear_arith)
            requires
                rate >= 0,
        ;
        assert(rate * total_ms(init) >= 0) by (nonlinear_arith)
            requires
                rate >= 0,
                total_ms(init) >= 0,
        ;
    }
}

/// A total of tick lengths is never negative.
proof fn lemma_total_nonneg(dts: Seq<u32>)
    ensures
        total_ms(dts) >= 0,
    decreases dts.len(),
{
    if dts.len() > 0 {
        lemma_total_nonneg(dts.drop_last());
    }
}

/// The entities of `es` that are in an attack cycle, in store order.
pub open spec fn attackers(es: Seq<Entity>) -> Seq<Entity>
    decreases es.len(),
{
    if es.len() == 0 {
        Seq::empty()
    } else if es.last().attacking is Some {
        attackers(es.drop_last()).push(es.last())
    } else {
        attackers(es.drop_last())
    }
}

/// The strikes of an attack phase depend only on the entities in an attack cycle: targets
/// present, absent or out of reach change nothing.
pub proof fn lemma_strikes_depend_on_attackers_only(es: Seq<Entity>, dt: u32)
    ensures
        strikes_of(es, dt) == strikes_of(attackers(es), dt),
    decreases es.len(),
{
    if es.len() > 0 {
        let init = es.drop_last();
        lemma_strikes_depend_on_attackers_only(init, dt);
        if es.last().attacking is Some {
            let a = attackers(es);
            assert(a.drop_last() =~= attackers(init));
        }
    }
}

/// Two stores whose entities in an attack cycle agree emit the same strikes.
pub proof fn lemma_strikes_same_for_same_attackers(es1: Seq<Entity>, es2: Seq<Entity>, dt: u32)
    requires
        attackers(es1) == attackers(es2),
    ensures
        strikes_of(es1, dt) == strikes_of(es2, dt),
{
    lemma_strikes_depend_on_attackers_only(es1, dt);
    lemma_strikes_depend_on_attackers_only(es2, dt);
}

/// Every entity after one combat tick is, by id, an entity of the store the tick
/// started from.
proof fn lemma_tick_keeps_ids(es: Seq<Entity>, dt: u32)
    ensures
        forall|i: int|
            0 <= i < combat_tick(es, dt).len() ==> exists|k: int|
                0 <= k < es.len() && es[k].id == #[trigger] combat_tick(es, dt)[i].id,
{
    let walked = moved(targeted(es), dt);
    let swung_es = swings(walked, dt);
    let hit = resolved(swung_es, strikes_of(walked, dt));
    lemma_survivors_from(hit);
    lemma_resolved_keeps(swung_es, strikes_of(walked, dt));
    assert forall|i: int| 0 <= i < combat_tick(es, dt).len() implies exists|k: int|
        0 <= k < es.len() && es[k].id == #[trigger] combat_tick(es, dt)[i].id by {
        let k = choose|k: int| 0 <= k < hit.len() && hit[k] == #[trigger] combat_tick(es, dt)[i];
        assert(es[k].id == hit[k].id);
    }
}

/// In a running match, a unit that ends a tick in an attack cycle stood still during the
/// tick: it was already in the store at that position, or it was spawned there this
/// tick. A unit that was in an attack cycle before the tick and survives it has not moved.
pub proof fn lemma_match_attackers_stand_still(
    before: Simulation,
    after: Simulation,
    dt: u32,
    requests: Seq<SpawnUnit>,
    jitter: Seq<SpawnJitter>,
    r: TickSummary,
)
    requires
        before.wf(),
        before.outcome() is None,
        steps_to(before, after, dt, requests, jitter, r),
    ensures
        forall|i: int|
            0 <= i < after.entities().len() && (#[trigger] after.entities()[i]).attacking is Some ==> {
                ||| exists|j: int|
                    0 <= j < before.entities().len() && before.entities()[j].id == after.entities()[i].id
                        && before.entities()[j].position == after.entities()[i].position
                ||| exists|j: int|
                    0 <= j < spawn_all(before.entities(), before.next_id(), requests, jitter).0.len()
                        && spawn_all(before.entities(), before.next_id(), requests, jitter).0[j].id
                        == after.entities()[i].id && spawn_all(
                        before.entities(),
                        before.next_id(),
                        requests,
                        jitter,
                    ).0[j].position == after.entities()[i].position && after.entities()[i].id
                        >= before.next_id()
            },
        forall|i: int, j: int|
            0 <= i < after.entities().len() && 0 <= j < before.entities().len()
                && before.entities()[j].attacking is Some && #[trigger] after.entities()[i].id
                == #[trigger] before.entities()[j].id ==> after.entities()[i].position
                == before.entities()[j].position,
{
    before.lemma_store_wf();
    let spawned = spawn_all(before.entities(), before.next_id(), requests, jitter).0;
    lemma_spawn_all_wf(before.entities(), before.next_id(), requests, jitter);
    lemma_spawn_all_extends(before.entities(), before.next_id(), requests, jitter);
    assert forall|a: int, b: int| 0 <= a < spawned.len() && 0 <= b < spawned.len() && a != b implies spawned[a].id
        != spawned[b].id by {
        if a < b {
            assert(spawned[a].id < spawned[b].id);
        } else {
            assert(spawned[b].id < spawned[a].id);
        }
    }
    lemma_attackers_stand_still(spawned, dt);
    let out = after.entities();
    assert forall|i: int| 0 <= i < out.len() && (#[trigger] out[i]).attacking is Some implies {
        ||| exists|j: int|
            0 <= j < before.entities().len() && before.entities()[j].id == out[i].id
                && before.entities()[j].position == out[i].position
        ||| exists|j: int|
            0 <= j < spawned.len() && spawned[j].id == out[i].id && spawned[j].position == out[i].position
                && out[i].id >= before.next_id()
    } by {
        assert(combat_tick(spawned, dt)[i] == out[i]);
        let j = choose|j: int|
            0 <= j < spawned.len() && spawned[j].id == out[i].id && spawned[j].position == out[i].position;
        if j < before.entities().len() {
            assert(spawned[j] == before.entities()[j]);
        } else {
            assert(spawned[j].id >= before.next_id());
        }
    }
    assert forall|i: int, j: int|
        0 <= i < out.len() && 0 <= j < before.entities().len() && before.entities()[j].attacking is Some
            && #[trigger] out[i].id == #[trigger] before.entities()[j].id implies out[i].position
        == before.entities()[j].position by {
        assert(spawned[j] == before.entities()[j]);
        assert(combat_tick(spawned, dt)[i] == out[i]);
    }
}

/// A removed entity never comes back, so it never strikes again: after a tick of a running
/// match every entity either was in the store before, by id, or is new with an id at or
/// above the next free id before; and the next free id never goes down.
pub proof fn lemma_removed_stay_removed(
    before: Simulation,
    after: Simulation,
    dt: u32,
    requests: Seq<SpawnUnit>,
    jitter: Seq<SpawnJitter>,
    r: TickSummary,
)
    requires
        before.wf(),
        steps_to(before, after, dt, requests, jitter, r),
    ensures
        after.next_id() >= before.next_id(),
        forall|i: int|
            0 <= i < after.entities().len() ==> #[trigger] after.entities()[i].id >= before.next_id() || exists|
                j: int,
            | 0 <= j < before.entities().len() && before.entities()[j].id == after.entities()[i].id,
{
    if before.outcome() is None {
        let spawned = spawn_all(before.entities(), before.next_id(), requests, jitter).0;
        lemma_spawn_all_extends(before.entities(), before.next_id(), requests, jitter);
        lemma_tick_keeps_ids(spawned, dt);
        let out = after.entities();
        assert forall|i: int| 0 <= i < out.len() implies #[trigger] out[i].id >= before.next_id() || exists|j: int|
            0 <= j < before.entities().len() && before.entities()[j].id == out[i].id by {
            assert(combat_tick(spawned, dt)[i] == out[i]);
            let k = choose|k: int| 0 <= k < spawned.len() && spawned[k].id == #[trigger] combat_tick(spawned, dt)[i].id;
            if k < before.entities().len() {
                assert(spawned[k] == before.entities()[k]);
            }
        }
    } else {
        let out = after.entities();
        assert forall|i: int| 0 <= i < out.len() implies #[trigger] out[i].id >= before.next_id() || exists|j: int|
            0 <= j < before.entities().len() && before.entities()[j].id == out[i].id by {
            assert(before.entities()[i].id == out[i].id);
        }
    }
}

/// The attack state after one attack phase per tick of `dts`, in turn.
pub open spec fn cycle_after(a: Option<Attacking>, dts: Seq<u32>) -> Option<Attacking>
    decreases dts.len(),
{
    if dts.len() == 0 {
        a
    } else {
        next_attacking(cycle_after(a, dts.drop_last()), dts.last())
    }
}

/// A strike is due in an attack phase of `dt` from attack state `a`.
pub open spec fn strike_due(a: Option<Attacking>, dt: u32) -> bool {
    a matches Some(Attacking::Foreswing(t)) && dt >= t
}

/// An attack that has just started strikes in the first tick by which the full wind-up
/// has elapsed, and in no tick before: while the ticks so far total less than the wind-up,
/// the unit is still winding up with the rest left, and the next tick strikes exactly when
/// it brings the total to the wind-up or beyond.
pub proof fn lemma_strike_after_full_windup(dts: Seq<u32>, dt: u32)
    requires
        total_ms(dts) < FORESWING_MS,
    ensures
        cycle_after(Some(Attacking::Foreswing(FORESWING_MS)), dts) == Some(
            Attacking::Foreswing((FORESWING_MS - total_ms(dts)) as u32),
        ),
        strike_due(cycle_after(Some(Attacking::Foreswing(FORESWING_MS)), dts), dt) <==> total_ms(dts) + dt
            >= FORESWING_MS,
        forall|k: int|
            0 <= k < dts.len() ==> !strike_due(
                #[trigger] cycle_after(Some(Attacking::Foreswing(FORESWING_MS)), dts.subrange(0, k)),
                dts[k],
            ),
    decreases dts.len(),
{
    lemma_total_nonneg(dts);
    if dts.len() > 0 {
        let init = dts.drop_last();
        lemma_total_nonneg(init);
        lemma_strike_after_full_windup(init, dts.last());
        assert forall|k: int|
            0 <= k < dts.len() implies !strike_due(
            #[trigger] cycle_after(Some(Attacking::Foreswing(FORESWING_MS)), dts.subrange(0, k)),
            dts[k],
        ) by {
            if k < init.len() {
                assert(dts.subrange(0, k) =~= init.subrange(0, k));
                assert(dts[k] == init[k]);
            } else {
                assert(dts.subrange(0, k) =~= init);
            }
        }
    }
}

} // verus!
