use vstd::prelude::*;
use crate::stats::{movement_of, AttackStats, Health, MovementStats};
use crate::world::{alive, can_strike, check_strike, clamp_i64, facing, shift_x, strike_stats, Attack, Attacking, Entity, EntityKind, Position};

verus! {

/// How long a wind-up lasts, in milliseconds.
pub const FORESWING_MS: u32 = 1000;

/// How long the recovery after a strike lasts, in milliseconds.
pub const BACKSWING_MS: u32 = 500;

/// The reach of an entity, in thousandths of a lane unit (zero for a base).
pub open spec fn reach(e: Entity) -> int {
    strike_stats(e.kind).attack_range as int
}

/// A living unit that is not in an attack cycle.
pub open spec fn idle_unit(e: Entity) -> bool {
    &&& e.kind is Unit
    &&& alive(e)
    &&& e.attacking is None
}

/// Some entity of `es` is a valid target for `e`.
pub open spec fn sees_enemy(es: Seq<Entity>, e: Entity) -> bool {
    exists|j: int|
        0 <= j < es.len() && #[trigger] can_strike(e.is_foe, facing(e.is_foe), reach(e), e.position, es[j])
}

/// `e` after targeting: an idle unit with a valid target in `es` starts an attack.
pub open spec fn engaged(es: Seq<Entity>, e: Entity) -> Entity {
    if idle_unit(e) && sees_enemy(es, e) {
        Entity { attacking: Some(Attacking::Start), ..e }
    } else {
        e
    }
}

/// The store after the targeting phase.
pub open spec fn targeted(es: Seq<Entity>) -> Seq<Entity> {
    Seq::new(es.len(), |i: int| engaged(es, es[i]))
}

/// How far an entity walks per millisecond (zero for a base).
pub open spec fn stride(kind: EntityKind) -> int {
    match kind {
        EntityKind::Base => 0,
        EntityKind::Unit(t) => movement_of(t).speed as int,
    }
}

/// `e` after walking for `dt` milliseconds: an idle unit advances in its facing direction.
pub open spec fn walked(e: Entity, dt: u32) -> Entity {
    if idle_unit(e) {
        Entity {
            position: Position {
                x: clamp_i64(e.position.x + facing(e.is_foe) * stride(e.kind) * dt) as i64,
                y: e.position.y,
            },
            ..e
        }
    } else {
        e
    }
}

/// The store after the movement phase.
pub open spec fn moved(es: Seq<Entity>, dt: u32) -> Seq<Entity> {
    Seq::new(es.len(), |i: int| walked(es[i], dt))
}

/// One step of the attack cycle over `dt` milliseconds.
pub open spec fn next_attacking(a: Option<Attacking>, dt: u32) -> Option<Attacking> {
    match a {
        None => None,
        Some(Attacking::Start) => Some(Attacking::Foreswing(FORESWING_MS)),
        Some(Attacking::Foreswing(t)) => if dt >= t {
            Some(Attacking::Backswing(BACKSWING_MS))
        } else {
            Some(Attacking::Foreswing((t - dt) as u32))
        },
        Some(Attacking::Backswing(t)) => if dt >= t {
            None
        } else {
            Some(Attacking::Backswing((t - dt) as u32))
        },
    }
}

/// A unit whose wind-up completes within the next `dt` milliseconds.
pub open spec fn strikes(e: Entity, dt: u32) -> bool {
    &&& e.kind is Unit
    &&& e.attacking matches Some(Attacking::Foreswing(t))
    &&& dt >= t
}

/// `e` after the attack phase: a unit advances its attack cycle by one step.
pub open spec fn swung(e: Entity, dt: u32) -> Entity {
    if e.kind is Unit {
        Entity { attacking: next_attacking(e.attacking, dt), ..e }
    } else {
        e
    }
}

/// The store after the attack phase.
pub open spec fn swings(es: Seq<Entity>, dt: u32) -> Seq<Entity> {
    Seq::new(es.len(), |i: int| swung(es[i], dt))
}

/// The strike that unit `e` emits.
pub open spec fn strike_of(e: Entity) -> Attack {
    Attack {
        is_foe: e.is_foe,
        stats: strike_stats(e.kind),
        position: e.position,
        direction: facing(e.is_foe) as i64,
    }
}

/// The strikes emitted by the attack phase, in store order.
pub open spec fn strikes_of(es: Seq<Entity>, dt: u32) -> Seq<Attack>
    decreases es.len(),
{
    if es.len() == 0 {
        Seq::empty()
    } else {
        let rest = strikes_of(es.drop_last(), dt);
        if strikes(es.last(), dt) {
            rest.push(strike_of(es.last()))
        } else {
            rest
        }
    }
}

/// Tells whether `e` has a valid target among `entities`.
fn sees_enemy_exec(entities: &Vec<Entity>, e: &Entity) -> (r: bool)
    ensures
        r == sees_enemy(entities@, *e),
{
    let range: u32 = match e.kind {
        EntityKind::Base => 0,
        EntityKind::Unit(t) => AttackStats::from(t).attack_range,
    };
    let direction: i64 = if e.is_foe {
        -1
    } else {
        1
    };
    let mut j: usize = 0;
    while j < entities.len()
        invariant
            j <= entities.len(),
            range == reach(*e),
            direction == facing(e.is_foe),
            forall|k: int|
                0 <= k < j ==> !#[trigger] can_strike(e.is_foe, facing(e.is_foe), reach(*e), e.position, entities@[k]),
        decreases entities.len() - j,
    {
        if check_strike(e.is_foe, direction, range, e.position, &entities[j]) {
            return true;
        }
        j += 1;
    }
    false
}

/// Targeting: every idle unit that has a living enemy in front of it and within reach
/// starts an attack. No unit commits to a target yet.
pub fn unit_behavior(entities: &Vec<Entity>) -> (r: Vec<Entity>)
    ensures
        r@ == targeted(entities@),
{
    let mut r: Vec<Entity> = Vec::new();
    let mut i: usize = 0;
    while i < entities.len()
        invariant
            i <= entities.len(),
            r@.len() == i,
            forall|k: int| 0 <= k < i ==> r@[k] == engaged(entities@, entities@[k]),
        decreases entities.len() - i,
    {
        let e = entities[i];
        let mut next = e;
        let idle = match e.kind {
            EntityKind::Unit(_) => e.health.current > 0 && e.attacking.is_none(),
            EntityKind::Base => false,
        };
        if idle && sees_enemy_exec(entities, &e) {
            next.attacking = Some(Attacking::Start);
        }
        r.push(next);
        i += 1;
    }
    assert(r@ =~= targeted(entities@));
    r
}

/// Movement: every idle unit walks `dt_ms` milliseconds toward the other side; units in an
/// attack cycle and bases stay where they are.
pub fn move_units(entities: &Vec<Entity>, dt_ms: u32) -> (r: Vec<Entity>)
    ensures
        r@ == moved(entities@, dt_ms),
{
    let mut r: Vec<Entity> = Vec::new();
    let mut i: usize = 0;
    while i < entities.len()
        invariant
            i <= entities.len(),
            r@.len() == i,
            forall|k: int| 0 <= k < i ==> r@[k] == walked(entities@[k], dt_ms),
        decreases entities.len() - i,
    {
        let e = entities[i];
        let mut next = e;
        match e.kind {
            EntityKind::Unit(t) => {
                if e.health.current > 0 && e.attacking.is_none() {
                    let speed: u32 = MovementStats::from(t).speed;
                    assert(speed * dt_ms <= 0x1_0000_0000 * 0x1_0000_0000) by (nonlinear_arith)
                        requires
                            speed <= 0x1_0000_0000,
                            dt_ms <= 0x1_0000_0000,
                    ;
                    let step: i128 = speed as i128 * dt_ms as i128;
                    let delta: i128 = if e.is_foe {
                        -step
                    } else {
                        step
                    };
                    assert(delta == facing(e.is_foe) * stride(e.kind) * dt_ms) by (nonlinear_arith)
                        requires
                            step == speed * dt_ms,
                            speed == stride(e.kind),
                            delta == facing(e.is_foe) * step,
                    ;
                    next.position = Position { x: shift_x(e.position.x, delta), y: e.position.y };
                }
            },
            EntityKind::Base => {},
        }
        r.push(next);
        i += 1;
    }
    assert(r@ =~= moved(entities@, dt_ms));
    r
}

/// Advances the attack cycle of one unit by `dt_ms` milliseconds.
fn step_attack(a: Option<Attacking>, dt_ms: u32) -> (r: Option<Attacking>)
    ensures
        r == next_attacking(a, dt_ms),
{
    match a {
        None => None,
        Some(Attacking::Start) => Some(Attacking::Foreswing(FORESWING_MS)),
        Some(Attacking::Foreswing(t)) => if dt_ms >= t {
            Some(Attacking::Backswing(BACKSWING_MS))
        } else {
            Some(Attacking::Foreswing(t - dt_ms))
        },
        Some(Attacking::Backswing(t)) => if dt_ms >= t {
            None
        } else {
            Some(Attacking::Backswing(t - dt_ms))
        },
    }
}

/// The attack phase: every unit in an attack cycle advances it by one step. A unit whose
/// wind-up completes emits one strike, whether or not a target is still there, and
/// enters recovery; a finished recovery ends the cycle.
pub fn attack_animation(entities: &Vec<Entity>, dt_ms: u32) -> (r: (Vec<Entity>, Vec<Attack>))
    ensures
        r.0@ == swings(entities@, dt_ms),
        r.1@ == strikes_of(entities@, dt_ms),
{
    let mut next: Vec<Entity> = Vec::new();
    let mut attacks: Vec<Attack> = Vec::new();
    let mut i: usize = 0;
    while i < entities.len()
        invariant
            i <= entities.len(),
            next@.len() == i,
            forall|k: int| 0 <= k < i ==> next@[k] == swung(entities@[k], dt_ms),
            attacks@ == strikes_of(entities@.subrange(0, i as int), dt_ms),
        decreases entities.len() - i,
    {
        let e = entities[i];
        let mut after = e;
        proof {
            assert(entities@.subrange(0, i + 1).drop_last() =~= entities@.subrange(0, i as int));
        }
        match e.kind {
            EntityKind::Unit(t) => {
                let hits = match e.attacking {
                    Some(Attacking::Foreswing(left)) => dt_ms >= left,
                    _ => false,
                };
                if hits {
                    attacks.push(
                        Attack {
                            is_foe: e.is_foe,
                            stats: AttackStats::from(t),
                            position: e.position,
                            direction: if e.is_foe {
                                -1
                            } else {
                                1
                            },
                        },
                    );
                }
                after.attacking = step_attack(e.attacking, dt_ms);
            },
            EntityKind::Base => {},
        }
        next.push(after);
        i += 1;
    }
    assert(next@ =~= swings(entities@, dt_ms));
    assert(entities@.subrange(0, entities@.len() as int) =~= entities@);
    (next, attacks)
}

/// Squared distance between two points.
pub open spec fn dist2(a: Position, b: Position) -> int {
    (a.x - b.x) * (a.x - b.x) + (a.y - b.y) * (a.y - b.y)
}

/// `target` is a valid target of strike `ev`.
pub open spec fn hit_by(ev: Attack, target: Entity) -> bool {
    can_strike(ev.is_foe, ev.direction as int, ev.stats.attack_range as int, ev.position, target)
}

/// `a` is preferred to `b` as the target of a strike from `from`: it is nearer, or as
/// near and has the smaller id.
pub open spec fn closer(from: Position, a: Entity, b: Entity) -> bool {
    ||| dist2(from, a.position) < dist2(from, b.position)
    ||| dist2(from, a.position) == dist2(from, b.position) && a.id <= b.id
}

/// Entity `k` of `es` is the one that strike `ev` lands on: a valid target preferred to
/// every other valid target.
pub open spec fn is_nearest(es: Seq<Entity>, ev: Attack, k: int) -> bool {
    &&& 0 <= k < es.len()
    &&& hit_by(ev, es[k])
    &&& forall|j: int| 0 <= j < es.len() && #[trigger] hit_by(ev, es[j]) ==> closer(ev.position, es[k], es[j])
}

/// No two entities of `es` share an id.
pub open spec fn ids_distinct(es: Seq<Entity>) -> bool {
    forall|i: int, j: int| 0 <= i < es.len() && 0 <= j < es.len() && i != j ==> es[i].id != es[j].id
}

/// `e` after taking `damage` points.
pub open spec fn damaged(e: Entity, damage: u32) -> Entity {
    Entity { health: Health { current: (e.health.current - damage) as i64, ..e.health }, ..e }
}

/// The store after strike `ev` lands; a strike with no valid target is lost.
pub open spec fn struck(es: Seq<Entity>, ev: Attack) -> Seq<Entity> {
    if exists|k: int| is_nearest(es, ev, k) {
        let k = choose|k: int| is_nearest(es, ev, k);
        es.update(k, damaged(es[k], ev.stats.attack_damage))
    } else {
        es
    }
}

/// The store after the strikes `evs` land, in order.
pub open spec fn resolved(es: Seq<Entity>, evs: Seq<Attack>) -> Seq<Entity>
    decreases evs.len(),
{
    if evs.len() == 0 {
        es
    } else {
        struck(resolved(es, evs.drop_last()), evs.last())
    }
}

/// At most one entity is the nearest target of a strike.
pub proof fn lemma_nearest_unique(es: Seq<Entity>, ev: Attack, a: int, b: int)
    requires
        ids_distinct(es),
        is_nearest(es, ev, a),
        is_nearest(es, ev, b),
    ensures
        a == b,
{
    assert(hit_by(ev, es[a]) && hit_by(ev, es[b]));
}

/// A strike changes only the health of the entity it lands on.
pub proof fn lemma_struck_keeps(es: Seq<Entity>, ev: Attack)
    ensures
        struck(es, ev).len() == es.len(),
        forall|i: int|
            0 <= i < es.len() ==> {
                let e = #[trigger] struck(es, ev)[i];
                &&& e.id == es[i].id
                &&& e.kind == es[i].kind
                &&& e.is_foe == es[i].is_foe
                &&& e.position == es[i].position
                &&& e.attacking == es[i].attacking
                &&& e.health.max == es[i].health.max
                &&& e.health.current <= es[i].health.current
            },
{
    if exists|k: int| is_nearest(es, ev, k) {
        let k = choose|k: int| is_nearest(es, ev, k);
        assert(hit_by(ev, es[k]));
    }
}

/// Finds the entity that strike `ev` lands on, if any.
fn nearest_target(entities: &Vec<Entity>, ev: &Attack) -> (r: Option<usize>)
    requires
        ev.stats.attack_range <= u32::MAX,
    ensures
        r matches Some(k) ==> is_nearest(entities@, *ev, k as int),
        r is None ==> !exists|k: int| is_nearest(entities@, *ev, k),
        r is None ==> forall|j: int| 0 <= j < entities@.len() ==> !hit_by(*ev, #[trigger] entities@[j]),
{
    let mut best: Option<usize> = None;
    let mut best_d: i128 = 0;
    let mut j: usize = 0;
    while j < entities.len()
        invariant
            j <= entities.len(),
            best matches Some(b) ==> {
                &&& b < j
                &&& hit_by(*ev, entities@[b as int])
                &&& best_d == dist2(ev.position, entities@[b as int].position)
                &&& forall|k: int|
                    0 <= k < j && #[trigger] hit_by(*ev, entities@[k]) ==> closer(
                        ev.position,
                        entities@[b as int],
                        entities@[k],
                    )
            },
            best is None ==> forall|k: int| 0 <= k < j ==> !hit_by(*ev, #[trigger] entities@[k]),
        decreases entities.len() - j,
    {
        let t = entities[j];
        if check_strike(ev.is_foe, ev.direction, ev.stats.attack_range, ev.position, &t) {
            let dx: i128 = ev.position.x as i128 - t.position.x as i128;
            let dy: i128 = ev.position.y as i128 - t.position.y as i128;
            assert(dx * dx + dy * dy <= 2 * 0x1_0000_0000 * 0x1_0000_0000) by (nonlinear_arith)
                requires
                    -0x1_0000_0000 <= dx <= 0x1_0000_0000,
                    -0x1_0000_0000 <= dy <= 0x1_0000_0000,
            ;
            assert(0 <= dx * dx) by (nonlinear_arith);
            assert(0 <= dy * dy) by (nonlinear_arith);
            let d: i128 = dx * dx + dy * dy;
            let better = match best {
                None => true,
                Some(b) => d < best_d || (d == best_d && t.id < entities[b].id),
            };
            if better {
                best = Some(j);
                best_d = d;
            }
        }
        j += 1;
    }
    proof {
        if best is None {
            assert forall|k: int| !is_nearest(entities@, *ev, k) by {
                if 0 <= k < entities@.len() {
                    assert(!hit_by(*ev, entities@[k]));
                }
            }
        }
    }
    best
}

/// Damage resolution: each strike, in order, lands on the living enemy in front of the
/// striker and within its reach that is nearest to where the strike came from (ties go
/// to the smaller id). A strike with no such target is lost.
pub fn attack(entities: Vec<Entity>, events: &Vec<Attack>) -> (r: Vec<Entity>)
    requires
        ids_distinct(entities@),
    ensures
        r@ == resolved(entities@, events@),
        ids_distinct(r@),
{
    let mut es = entities;
    let mut i: usize = 0;
    while i < events.len()
        invariant
            i <= events.len(),
            es@ == resolved(entities@, events@.subrange(0, i as int)),
            ids_distinct(es@),
        decreases events.len() - i,
    {
        let ev = events[i];
        proof {
            assert(events@.subrange(0, i + 1).drop_last() =~= events@.subrange(0, i as int));
            lemma_struck_keeps(es@, ev);
        }
        let before = Ghost(es@);
        match nearest_target(&es, &ev) {
            Some(k) => {
                let mut target = es[k];
                proof {
                    lemma_nearest_choice(before@, ev, k as int);
                }
                target.health.apply_damage(ev.stats.attack_damage);
                es.set(k, target);
                assert(es@ =~= struck(before@, ev));
            },
            None => {},
        }
        i += 1;
    }
    assert(events@.subrange(0, events@.len() as int) =~= events@);
    es
}

/// The entity a strike picks in `struck` is any nearest one, given distinct ids.
proof fn lemma_nearest_choice(es: Seq<Entity>, ev: Attack, k: int)
    requires
        ids_distinct(es),
        is_nearest(es, ev, k),
    ensures
        struck(es, ev) == es.update(k, damaged(es[k], ev.stats.attack_damage)),
        es[k].health.current > 0,
{
    let c = choose|c: int| is_nearest(es, ev, c);
    lemma_nearest_unique(es, ev, c, k);
}

/// The store after the mortality sweep: the living entities, in order.
pub open spec fn survivors(es: Seq<Entity>) -> Seq<Entity>
    decreases es.len(),
{
    if es.len() == 0 {
        Seq::empty()
    } else {
        let rest = survivors(es.drop_last());
        if alive(es.last()) {
            rest.push(es.last())
        } else {
            rest
        }
    }
}

/// Mortality: removes every entity whose health is zero or less, keeping the order of
/// the others.
pub fn die(entities: &Vec<Entity>) -> (r: Vec<Entity>)
    ensures
        r@ == survivors(entities@),
{
    let mut r: Vec<Entity> = Vec::new();
    let mut i: usize = 0;
    while i < entities.len()
        invariant
            i <= entities.len(),
            r@ == survivors(entities@.subrange(0, i as int)),
        decreases entities.len() - i,
    {
        proof {
            assert(entities@.subrange(0, i + 1).drop_last() =~= entities@.subrange(0, i as int));
        }
        let e = entities[i];
        if !e.health.is_dead() {
            r.push(e);
        }
        i += 1;
    }
    assert(entities@.subrange(0, entities@.len() as int) =~= entities@);
    r
}

/// The strikes of a tick keep every entity's id, kind, side, position, attack state and
/// maximum health, and never raise its health.
pub proof fn lemma_resolved_keeps(es: Seq<Entity>, evs: Seq<Attack>)
    ensures
        resolved(es, evs).len() == es.len(),
        forall|i: int|
            0 <= i < es.len() ==> {
                let e = #[trigger] resolved(es, evs)[i];
                &&& e.id == es[i].id
                &&& e.kind == es[i].kind
                &&& e.is_foe == es[i].is_foe
                &&& e.position == es[i].position
                &&& e.attacking == es[i].attacking
                &&& e.health.max == es[i].health.max
                &&& e.health.current <= es[i].health.current
            },
    decreases evs.len(),
{
    if evs.len() > 0 {
        lemma_resolved_keeps(es, evs.drop_last());
        let before = resolved(es, evs.drop_last());
        lemma_struck_keeps(before, evs.last());
        assert forall|i: int| 0 <= i < es.len() implies {
            let e = #[trigger] resolved(es, evs)[i];
            &&& e.id == es[i].id
            &&& e.kind == es[i].kind
            &&& e.is_foe == es[i].is_foe
            &&& e.position == es[i].position
            &&& e.attacking == es[i].attacking
            &&& e.health.max == es[i].health.max
            &&& e.health.current <= es[i].health.current
        } by {
            assert(resolved(es, evs)[i] == struck(before, evs.last())[i]);
            assert(before[i].id == es[i].id);
        }
    }
}

/// Every survivor is alive and is an entity of the store it came from.
pub proof fn lemma_survivors_from(es: Seq<Entity>)
    ensures
        survivors(es).len() <= es.len(),
        forall|i: int| 0 <= i < survivors(es).len() ==> alive(#[trigger] survivors(es)[i]),
        forall|i: int|
            0 <= i < survivors(es).len() ==> exists|j: int| 0 <= j < es.len() && es[j] == #[trigger] survivors(es)[i],
    decreases es.len(),
{
    if es.len() > 0 {
        lemma_survivors_from(es.drop_last());
        let rest = survivors(es.drop_last());
        assert forall|i: int| 0 <= i < survivors(es).len() implies exists|j: int|
            0 <= j < es.len() && es[j] == #[trigger] survivors(es)[i] by {
            if i < rest.len() {
                let j = choose|j: int| 0 <= j < es.drop_last().len() && es.drop_last()[j] == rest[i];
                assert(es[j] == survivors(es)[i]);
            } else {
                assert(es[es.len() - 1] == survivors(es)[i]);
            }
        }
    }
}

} // verus!
