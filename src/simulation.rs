use vstd::prelude::*;
use crate::combat::{
    attack, attack_animation, die, ids_distinct, lemma_resolved_keeps, lemma_survivors_from, move_units,
    moved, resolved, strikes_of, survivors, swings, targeted, unit_behavior,
};
use crate::inventory::{filled, Inventory, Item};
use crate::rng::{draw_jitters, jitter_in_bounds};
use bevy_turborand::prelude::RngComponent;
use crate::stats::Health;
use crate::world::{
    alive, new_unit, place_spawn, spawn_position, Attack, Entity, EntityKind, Position, SpawnJitter,
    SpawnUnit,
};

verus! {

/// The side that won a match.
#[derive(Debug, Clone, Copy, PartialEq, Eq, Structural)]
pub enum Winner {
    Player,
    Enemy,
}

/// Whether a match is running or over.
#[derive(Debug, Clone, Copy, PartialEq, Eq, Structural)]
pub enum GameState {
    InGame,
    PostGame,
}

/// The result of a finished match.
#[derive(Debug, Clone, Copy, PartialEq, Eq, Structural)]
pub struct GameStats {
    pub winner: Winner,
}

/// `e` is the base of side `is_foe`.
pub open spec fn is_base_of(e: Entity, is_foe: bool) -> bool {
    e.kind is Base && e.is_foe == is_foe
}

/// Entity `i` is the first base of side `is_foe` in `es`.
pub open spec fn is_first_base(es: Seq<Entity>, is_foe: bool, i: int) -> bool {
    &&& 0 <= i < es.len()
    &&& is_base_of(es[i], is_foe)
    &&& forall|j: int| 0 <= j < i ==> !is_base_of(#[trigger] es[j], is_foe)
}

/// Side `is_foe` still has a base in `es`.
pub open spec fn has_base(es: Seq<Entity>, is_foe: bool) -> bool {
    exists|i: int| 0 <= i < es.len() && #[trigger] is_base_of(es[i], is_foe)
}

/// The index of the base of side `is_foe`, if it has one.
pub open spec fn base_index(es: Seq<Entity>, is_foe: bool) -> Option<int> {
    if exists|i: int| is_first_base(es, is_foe, i) {
        Some(choose|i: int| is_first_base(es, is_foe, i))
    } else {
        None
    }
}

/// The store and the next free id after one spawn request. A request of a side without
/// a base, or one that finds no free id left, is dropped.
pub open spec fn spawn_one(es: Seq<Entity>, next_id: u64, request: SpawnUnit, jitter: SpawnJitter) -> (
    Seq<Entity>,
    u64,
) {
    match base_index(es, request.is_foe) {
        Some(b) => if next_id < u64::MAX {
            (
                es.push(new_unit(next_id, request, spawn_position(es[b].position, request.is_foe, jitter))),
                (next_id + 1) as u64,
            )
        } else {
            (es, next_id)
        },
        None => (es, next_id),
    }
}

/// The store and the next free id after the spawn requests `requests`, in order; request
/// `i` is placed with `jitter[i]`.
pub open spec fn spawn_all(es: Seq<Entity>, next_id: u64, requests: Seq<SpawnUnit>, jitter: Seq<SpawnJitter>) -> (
    Seq<Entity>,
    u64,
)
    decreases requests.len(),
{
    if requests.len() == 0 {
        (es, next_id)
    } else {
        let (before, next) = spawn_all(es, next_id, requests.drop_last(), jitter);
        spawn_one(before, next, requests.last(), jitter[requests.len() - 1])
    }
}

/// The store after one tick of `dt` milliseconds on the freshly spawned store `es`:
/// targeting, movement, the attack cycle, damage resolution and mortality, in that order.
pub open spec fn combat_tick(es: Seq<Entity>, dt: u32) -> Seq<Entity> {
    let walked = moved(targeted(es), dt);
    survivors(resolved(swings(walked, dt), strikes_of(walked, dt)))
}

/// The winner that the bases left in `es` decide, if any: a side without a base has lost,
/// and the player wins if both bases are gone.
pub open spec fn winner_of(es: Seq<Entity>) -> Option<Winner> {
    if !has_base(es, true) {
        Some(Winner::Player)
    } else if !has_base(es, false) {
        Some(Winner::Enemy)
    } else {
        None
    }
}

/// No two bases in `es` belong to the same side.
pub open spec fn one_base_per_side(es: Seq<Entity>) -> bool {
    forall|i: int, j: int|
        0 <= i < j < es.len() && (#[trigger] es[i]).kind is Base && (#[trigger] es[j]).kind is Base ==> es[i].is_foe
            != es[j].is_foe
}

/// The store's own invariant: ids strictly increase along the store and stay below the
/// next free id, only units attack, no health exceeds its maximum, and each side has at
/// most one base.
pub open spec fn store_wf(es: Seq<Entity>, next_id: u64) -> bool {
    &&& one_base_per_side(es)
    &&& forall|i: int, j: int| 0 <= i < j < es.len() ==> #[trigger] es[i].id < #[trigger] es[j].id
    &&& forall|i: int| 0 <= i < es.len() ==> #[trigger] es[i].id < next_id
    &&& forall|i: int| 0 <= i < es.len() && (#[trigger] es[i]).attacking is Some ==> es[i].kind is Unit
    &&& forall|i: int| 0 <= i < es.len() ==> (#[trigger] es[i]).health.current <= es[i].health.max
}

/// Every entity of `es` is alive.
pub open spec fn all_alive(es: Seq<Entity>) -> bool {
    forall|i: int| 0 <= i < es.len() ==> alive(#[trigger] es[i])
}

/// The whole state of a match: the entity store, the coins of each side, and the outcome.
#[derive(Debug)]
pub struct Simulation {
    entities: Vec<Entity>,
    next_id: u64,
    player: Inventory,
    enemy: Inventory,
    coin_rate: u32,
    winner: Option<Winner>,
}

/// What a tick leaves for readers: the coins of each side (thousandths), the living
/// entities, the state of the match, and the strikes of this tick.
#[derive(Debug, PartialEq)]
pub struct TickSummary {
    pub player_coins: u64,
    pub enemy_coins: u64,
    pub entities: Vec<Entity>,
    pub state: GameState,
    pub winner: Option<Winner>,
    pub attacks: Vec<Attack>,
}

/// The lane position of the friendly base, in thousandths of a lane unit.
pub const PLAYER_BASE_X: i64 = -200_000;

/// The lane position of the enemy base, in thousandths of a lane unit.
pub const ENEMY_BASE_X: i64 = 200_000;

/// The health of each base.
pub const BASE_HEALTH: u32 = 100;

/// How many whole coins a side can hold in a standard match.
pub const COIN_CAPACITY: u32 = 100;

/// How many coins per second a side earns in a standard match.
pub const COIN_RATE: u32 = 2;

impl Simulation {
    /// The entities, in store order.
    pub closed spec fn entities(&self) -> Seq<Entity> {
        self.entities@
    }

    /// The id the next entity will get.
    pub closed spec fn next_id(&self) -> u64 {
        self.next_id
    }

    /// The coins of side `is_foe`, in thousandths.
    pub closed spec fn coins(&self, is_foe: bool) -> nat {
        if is_foe {
            self.enemy.coins.amount()
        } else {
            self.player.coins.amount()
        }
    }

    /// The coin cap of side `is_foe`, in thousandths.
    pub closed spec fn coin_limit(&self, is_foe: bool) -> nat {
        if is_foe {
            self.enemy.coins.limit()
        } else {
            self.player.coins.limit()
        }
    }

    /// The coins per second each side earns.
    pub closed spec fn rate(&self) -> u32 {
        self.coin_rate
    }

    /// The winner, once the match is over.
    pub closed spec fn outcome(&self) -> Option<Winner> {
        self.winner
    }

    /// The state's invariant: the store's own, and nothing dead is kept between ticks.
    pub closed spec fn wf(&self) -> bool {
        &&& store_wf(self.entities@, self.next_id)
        &&& all_alive(self.entities@)
    }

    /// A match in progress with both bases at full health and empty coin stocks that hold
    /// `coin_capacity` whole coins and fill at `coin_rate` coins per second.
    pub fn new(coin_capacity: u32, coin_rate: u32) -> (r: Simulation)
        ensures
            r.wf(),
            r.entities() == seq![
                Entity {
                    id: 0,
                    kind: EntityKind::Base,
                    is_foe: false,
                    position: Position { x: PLAYER_BASE_X, y: 0 },
                    health: Health { current: BASE_HEALTH as i64, max: BASE_HEALTH as i64 },
                    attacking: None,
                },
                Entity {
                    id: 1,
                    kind: EntityKind::Base,
                    is_foe: true,
                    position: Position { x: ENEMY_BASE_X, y: 0 },
                    health: Health { current: BASE_HEALTH as i64, max: BASE_HEALTH as i64 },
                    attacking: None,
                },
            ],
            r.next_id() == 2,
            r.coins(false) == 0,
            r.coins(true) == 0,
            r.coin_limit(false) == coin_capacity * 1000,
            r.coin_limit(true) == coin_capacity * 1000,
            r.rate() == coin_rate,
            r.outcome() is None,
    {
        let mut entities: Vec<Entity> = Vec::new();
        entities.push(
            Entity {
                id: 0,
                kind: EntityKind::Base,
                is_foe: false,
                position: Position { x: PLAYER_BASE_X, y: 0 },
                health: Health::from_max(BASE_HEALTH),
                attacking: None,
            },
        );
        entities.push(
            Entity {
                id: 1,
                kind: EntityKind::Base,
                is_foe: true,
                position: Position { x: ENEMY_BASE_X, y: 0 },
                health: Health::from_max(BASE_HEALTH),
                attacking: None,
            },
        );
        Simulation {
            entities,
            next_id: 2,
            player: Inventory { coins: Item::empty(coin_capacity) },
            enemy: Inventory { coins: Item::empty(coin_capacity) },
            coin_rate,
            winner: None,
        }
    }

    /// A standard match: bases 400 lane units apart, coin stocks of 100 filling at 2 per
    /// second.
    pub fn setup_in_game() -> (r: Simulation)
        ensures
            r.wf(),
            r.entities() == seq![
                Entity {
                    id: 0,
                    kind: EntityKind::Base,
                    is_foe: false,
                    position: Position { x: PLAYER_BASE_X, y: 0 },
                    health: Health { current: BASE_HEALTH as i64, max: BASE_HEALTH as i64 },
                    attacking: None,
                },
                Entity {
                    id: 1,
                    kind: EntityKind::Base,
                    is_foe: true,
                    position: Position { x: ENEMY_BASE_X, y: 0 },
                    health: Health { current: BASE_HEALTH as i64, max: BASE_HEALTH as i64 },
                    attacking: None,
                },
            ],
            r.next_id() == 2,
            r.coin_limit(false) == COIN_CAPACITY * 1000,
            r.coin_limit(true) == COIN_CAPACITY * 1000,
            r.coins(false) == 0,
            r.coins(true) == 0,
            r.rate() == COIN_RATE,
            r.outcome() is None,
    {
        Simulation::new(COIN_CAPACITY, COIN_RATE)
    }
}

/// Finds the base of side `is_foe`.
pub fn find_base(entities: &Vec<Entity>, is_foe: bool) -> (r: Option<usize>)
    requires
        one_base_per_side(entities@),
    ensures
        r matches Some(i) ==> base_index(entities@, is_foe) == Some(i as int),
        r is None ==> base_index(entities@, is_foe) is None,
        r is Some <==> has_base(entities@, is_foe),
{
    let mut i: usize = 0;
    while i < entities.len()
        invariant
            i <= entities.len(),
            forall|j: int| 0 <= j < i ==> !is_base_of(#[trigger] entities@[j], is_foe),
        decreases entities.len() - i,
    {
        let here = match entities[i].kind {
            EntityKind::Base => entities[i].is_foe == is_foe,
            EntityKind::Unit(_) => false,
        };
        if here {
            proof {
                assert(is_first_base(entities@, is_foe, i as int));
                let c = choose|c: int| is_first_base(entities@, is_foe, c);
                if c < i {
                    assert(!is_base_of(entities@[c], is_foe));
                } else if c > i {
                    assert(!is_base_of(entities@[i as int], is_foe));
                }
            }
            return Some(i);
        }
        i += 1;
    }
    proof {
        assert forall|c: int| !is_first_base(entities@, is_foe, c) by {
            if 0 <= c < entities@.len() {
                assert(!is_base_of(entities@[c], is_foe));
            }
        }
    }
    None
}

/// Decides the winner from the bases left: the player wins when the enemy base is gone,
/// the enemy when the player's base is.
pub fn game_end(entities: &Vec<Entity>) -> (r: Option<Winner>)
    requires
        one_base_per_side(entities@),
    ensures
        r == winner_of(entities@),
{
    if find_base(entities, true).is_none() {
        Some(Winner::Player)
    } else if find_base(entities, false).is_none() {
        Some(Winner::Enemy)
    } else {
        None
    }
}

/// Spawns a unit for each request, in order, at its side's base offset by the fixed
/// distance plus `jitter[i]`; requests of a side without a base are dropped.
pub fn spawn_unit(entities: Vec<Entity>, next_id: u64, requests: &Vec<SpawnUnit>, jitter: &Vec<SpawnJitter>) -> (r: (
    Vec<Entity>,
    u64,
))
    requires
        requests.len() == jitter.len(),
        one_base_per_side(entities@),
    ensures
        (r.0@, r.1) == spawn_all(entities@, next_id, requests@, jitter@),
        one_base_per_side(r.0@),
{
    let mut es = entities;
    let mut next = next_id;
    let mut i: usize = 0;
    while i < requests.len()
        invariant
            i <= requests.len(),
            requests.len() == jitter.len(),
            (es@, next) == spawn_all(entities@, next_id, requests@.subrange(0, i as int), jitter@),
            one_base_per_side(es@),
        decreases requests.len() - i,
    {
        let request = requests[i];
        proof {
            let pre = requests@.subrange(0, i + 1);
            assert(pre.drop_last() =~= requests@.subrange(0, i as int));
            assert(pre.last() == request);
        }
        match find_base(&es, request.is_foe) {
            Some(b) => {
                if next < u64::MAX {
                    let position = place_spawn(es[b].position, request.is_foe, jitter[i]);
                    es.push(
                        Entity {
                            id: next,
                            kind: EntityKind::Unit(request.unit_type),
                            is_foe: request.is_foe,
                            position,
                            health: Health::from(request.unit_type),
                            attacking: None,
                        },
                    );
                    next = next + 1;
                }
            },
            None => {},
        }
        i += 1;
    }
    assert(requests@.subrange(0, requests@.len() as int) =~= requests@);
    (es, next)
}

/// One spawn keeps the store's invariant.
proof fn lemma_spawn_one_wf(es: Seq<Entity>, next_id: u64, request: SpawnUnit, jitter: SpawnJitter)
    requires
        store_wf(es, next_id),
    ensures
        store_wf(spawn_one(es, next_id, request, jitter).0, spawn_one(es, next_id, request, jitter).1),
        spawn_one(es, next_id, request, jitter).1 >= next_id,
        all_alive(es) ==> all_alive(spawn_one(es, next_id, request, jitter).0),
{
    let (after, next) = spawn_one(es, next_id, request, jitter);
    if after.len() > es.len() {
        assert(alive(after[after.len() - 1]));
        assert forall|i: int| 0 <= i < after.len() implies #[trigger] after[i].id < next by {
            if i < es.len() {
                assert(es[i].id < next_id);
            }
        }
        assert forall|i: int, j: int| 0 <= i < j < after.len() implies #[trigger] after[i].id
            < #[trigger] after[j].id by {
            if j < es.len() {
                assert(es[i].id < es[j].id);
            } else {
                assert(es[i].id < next_id);
            }
        }
        assert forall|i: int| 0 <= i < after.len() implies (#[trigger] after[i]).health.current
            <= after[i].health.max by {
            if i < es.len() {
                assert(es[i].health.current <= es[i].health.max);
            }
        }
        assert forall|i: int| 0 <= i < after.len() && (#[trigger] after[i]).attacking is Some implies after[i].kind is Unit by {
            if i < es.len() {
                assert(es[i].attacking is Some ==> es[i].kind is Unit);
            }
        }
    }
}

/// Spawning only appends: the store before is kept as it was, and every entity added has
/// an id at or above the next free id before.
pub proof fn lemma_spawn_all_extends(es: Seq<Entity>, next_id: u64, requests: Seq<SpawnUnit>, jitter: Seq<SpawnJitter>)
    ensures
        spawn_all(es, next_id, requests, jitter).0.len() >= es.len(),
        spawn_all(es, next_id, requests, jitter).1 >= next_id,
        forall|j: int| 0 <= j < es.len() ==> #[trigger] spawn_all(es, next_id, requests, jitter).0[j] == es[j],
        forall|j: int|
            es.len() <= j < spawn_all(es, next_id, requests, jitter).0.len() ==> #[trigger] spawn_all(
                es,
                next_id,
                requests,
                jitter,
            ).0[j].id >= next_id,
    decreases requests.len(),
{
    if requests.len() > 0 {
        lemma_spawn_all_extends(es, next_id, requests.drop_last(), jitter);
    }
}

/// Spawning keeps the store's invariant.
pub proof fn lemma_spawn_all_wf(es: Seq<Entity>, next_id: u64, requests: Seq<SpawnUnit>, jitter: Seq<SpawnJitter>)
    requires
        store_wf(es, next_id),
    ensures
        store_wf(spawn_all(es, next_id, requests, jitter).0, spawn_all(es, next_id, requests, jitter).1),
        all_alive(es) ==> all_alive(spawn_all(es, next_id, requests, jitter).0),
    decreases requests.len(),
{
    if requests.len() > 0 {
        lemma_spawn_all_wf(es, next_id, requests.drop_last(), jitter);
        let (before, next) = spawn_all(es, next_id, requests.drop_last(), jitter);
        lemma_spawn_one_wf(before, next, requests.last(), jitter[requests.len() - 1]);
    }
}

/// The mortality sweep keeps the store's invariant.
proof fn lemma_survivors_wf(es: Seq<Entity>, next_id: u64)
    requires
        store_wf(es, next_id),
    ensures
        store_wf(survivors(es), next_id),
    decreases es.len(),
{
    lemma_survivors_from(es);
    if es.len() > 0 {
        let init = es.drop_last();
        assert(store_wf(init, next_id)) by {
            assert forall|i: int, j: int| 0 <= i < j < init.len() implies #[trigger] init[i].id
                < #[trigger] init[j].id by {
                assert(es[i].id < es[j].id);
            }
            assert forall|i: int| 0 <= i < init.len() implies #[trigger] init[i].id < next_id by {
                assert(es[i].id < next_id);
            }
            assert forall|i: int| 0 <= i < init.len() implies (#[trigger] init[i]).health.current
                <= init[i].health.max by {
                assert(es[i].health.current <= es[i].health.max);
            }
            assert forall|i: int| 0 <= i < init.len() && (#[trigger] init[i]).attacking is Some implies init[i].kind is Unit by {
                assert(es[i].attacking is Some ==> es[i].kind is Unit);
            }
        }
        lemma_survivors_wf(init, next_id);
        lemma_survivors_from(init);
        let rest = survivors(init);
        let out = survivors(es);
        if alive(es.last()) {
            assert forall|i: int, j: int| 0 <= i < j < out.len() implies #[trigger] out[i].id
                < #[trigger] out[j].id by {
                if j == rest.len() {
                    let k = choose|k: int| 0 <= k < init.len() && init[k] == #[trigger] rest[i];
                    assert(es[k].id < es[es.len() - 1].id);
                } else {
                    assert(rest[i].id < rest[j].id);
                }
            }
            assert forall|i: int| 0 <= i < out.len() implies #[trigger] out[i].id < next_id by {
                if i < rest.len() {
                    assert(rest[i].id < next_id);
                } else {
                    assert(es[es.len() - 1].id < next_id);
                }
            }
            assert forall|i: int| 0 <= i < out.len() implies (#[trigger] out[i]).health.current
                <= out[i].health.max by {
                if i < rest.len() {
                    assert(rest[i].health.current <= rest[i].health.max);
                } else {
                    assert(es[es.len() - 1].health.current <= es[es.len() - 1].health.max);
                }
            }
            assert forall|i: int| 0 <= i < out.len() && (#[trigger] out[i]).attacking is Some implies out[i].kind is Unit by {
                if i < rest.len() {
                    assert(rest[i].attacking is Some ==> rest[i].kind is Unit);
                } else {
                    assert(es[es.len() - 1].attacking is Some ==> es[es.len() - 1].kind is Unit);
                }
            }
        }
    }
}

/// One tick of combat keeps the store's invariant.
proof fn lemma_combat_wf(es: Seq<Entity>, next_id: u64, dt: u32)
    requires
        store_wf(es, next_id),
    ensures
        store_wf(combat_tick(es, dt), next_id),
        all_alive(combat_tick(es, dt)),
        ids_distinct(swings(moved(targeted(es), dt), dt)),
{
    let walked = moved(targeted(es), dt);
    let swung = swings(walked, dt);
    let hit = resolved(swung, strikes_of(walked, dt));
    assert(store_wf(swung, next_id)) by {
        assert forall|i: int, j: int| 0 <= i < j < swung.len() implies #[trigger] swung[i].id
            < #[trigger] swung[j].id by {
            assert(es[i].id < es[j].id);
        }
        assert forall|i: int| 0 <= i < swung.len() implies #[trigger] swung[i].id < next_id by {
            assert(es[i].id < next_id);
        }
        assert forall|i: int| 0 <= i < swung.len() implies (#[trigger] swung[i]).health.current
            <= swung[i].health.max by {
            assert(es[i].health.current <= es[i].health.max);
        }
        assert forall|i: int| 0 <= i < swung.len() && (#[trigger] swung[i]).attacking is Some implies swung[i].kind is Unit by {
            assert(es[i].attacking is Some ==> es[i].kind is Unit);
        }
    }
    lemma_resolved_keeps(swung, strikes_of(walked, dt));
    assert(store_wf(hit, next_id)) by {
        assert forall|i: int, j: int| 0 <= i < j < hit.len() implies #[trigger] hit[i].id
            < #[trigger] hit[j].id by {
            assert(swung[i].id < swung[j].id);
        }
        assert forall|i: int| 0 <= i < hit.len() implies #[trigger] hit[i].id < next_id by {
            assert(swung[i].id < next_id);
        }
        assert forall|i: int| 0 <= i < hit.len() implies (#[trigger] hit[i]).health.current
            <= hit[i].health.max by {
            assert(swung[i].health.current <= swung[i].health.max);
        }
        assert forall|i: int| 0 <= i < hit.len() && (#[trigger] hit[i]).attacking is Some implies hit[i].kind is Unit by {
            assert(swung[i].attacking is Some ==> swung[i].kind is Unit);
        }
    }
    lemma_survivors_wf(hit, next_id);
    lemma_survivors_from(hit);
    assert forall|i: int, j: int| 0 <= i < swung.len() && 0 <= j < swung.len() && i != j implies swung[i].id
        != swung[j].id by {
        if i < j {
            assert(swung[i].id < swung[j].id);
        } else {
            assert(swung[j].id < swung[i].id);
        }
    }
}

/// The strikes that a tick of `dt` milliseconds emits on the freshly spawned store `es`.
pub open spec fn tick_strikes(es: Seq<Entity>, dt: u32) -> Seq<Attack> {
    strikes_of(moved(targeted(es), dt), dt)
}

/// `after` is the match `before` one tick of `dt` milliseconds later, with spawn request
/// `i` placed with `jitter[i]`, and `r` is what that tick reports. Once a match is over it
/// stays as it is; otherwise both sides earn coins, the requests are served, a combat tick
/// runs on the store, and the bases left decide the winner.
pub open spec fn steps_to(
    before: Simulation,
    after: Simulation,
    dt: u32,
    requests: Seq<SpawnUnit>,
    jitter: Seq<SpawnJitter>,
    r: TickSummary,
) -> bool {
    &&& before.outcome() is Some ==> after == before && r.attacks@.len() == 0
    &&& before.outcome() is None ==> {
        let (spawned, next) = spawn_all(before.entities(), before.next_id(), requests, jitter);
        &&& after.entities() == combat_tick(spawned, dt)
        &&& after.next_id() == next
        &&& after.outcome() == winner_of(after.entities())
        &&& r.attacks@ == tick_strikes(spawned, dt)
        &&& after.coins(false) == filled(
            before.coins(false) as int,
            before.rate() * dt,
            before.coin_limit(false) as int,
        )
        &&& after.coins(true) == filled(before.coins(true) as int, before.rate() * dt, before.coin_limit(true) as int)
    }
    &&& after.coin_limit(false) == before.coin_limit(false)
    &&& after.coin_limit(true) == before.coin_limit(true)
    &&& after.rate() == before.rate()
    &&& r.entities@ == after.entities()
    &&& r.player_coins == after.coins(false)
    &&& r.enemy_coins == after.coins(true)
    &&& r.winner == after.outcome()
    &&& r.state == (if after.outcome() is Some {
        GameState::PostGame
    } else {
        GameState::InGame
    })
}

/// Copies the entities out for a reader.
fn copy_entities(entities: &Vec<Entity>) -> (r: Vec<Entity>)
    ensures
        r@ == entities@,
{
    let mut r: Vec<Entity> = Vec::new();
    let mut i: usize = 0;
    while i < entities.len()
        invariant
            i <= entities.len(),
            r@ == entities@.subrange(0, i as int),
        decreases entities.len() - i,
    {
        r.push(entities[i]);
        i += 1;
        assert(r@ =~= entities@.subrange(0, i as int));
    }
    assert(entities@.subrange(0, entities@.len() as int) =~= entities@);
    r
}

impl Simulation {
    /// A read-only snapshot of the match; `attacks` is empty.
    pub fn summary(&self) -> (r: TickSummary)
        ensures
            r.entities@ == self.entities(),
            r.player_coins == self.coins(false),
            r.enemy_coins == self.coins(true),
            r.winner == self.outcome(),
            r.state == (if self.outcome() is Some {
                GameState::PostGame
            } else {
                GameState::InGame
            }),
            r.attacks@.len() == 0,
    {
        TickSummary {
            player_coins: self.player.coins.thousandths(),
            enemy_coins: self.enemy.coins.thousandths(),
            entities: copy_entities(&self.entities),
            state: self.state(),
            winner: self.winner,
            attacks: Vec::new(),
        }
    }

    /// Whether the match is running or over.
    pub fn state(&self) -> (r: GameState)
        ensures
            r == (if self.outcome() is Some {
                GameState::PostGame
            } else {
                GameState::InGame
            }),
    {
        match self.winner {
            Some(_) => GameState::PostGame,
            None => GameState::InGame,
        }
    }

    /// The result, once the match is over.
    pub fn stats(&self) -> (r: Option<GameStats>)
        ensures
            r matches Some(g) ==> self.outcome() == Some(g.winner),
            r is None <==> self.outcome() is None,
    {
        match self.winner {
            Some(winner) => Some(GameStats { winner }),
            None => None,
        }
    }

    /// Takes `cost` whole coins from side `is_foe` if it holds them; otherwise changes
    /// nothing.
    pub fn try_spend(&mut self, is_foe: bool, cost: u32) -> (ok: bool)
        requires
            old(self).wf(),
        ensures
            final(self).wf(),
            ok == (old(self).coins(is_foe) >= cost * 1000),
            ok ==> final(self).coins(is_foe) == old(self).coins(is_foe) - cost * 1000,
            !ok ==> final(self).coins(is_foe) == old(self).coins(is_foe),
            final(self).coins(!is_foe) == old(self).coins(!is_foe),
            final(self).coin_limit(is_foe) == old(self).coin_limit(is_foe),
            final(self).coin_limit(!is_foe) == old(self).coin_limit(!is_foe),
            final(self).entities() == old(self).entities(),
            final(self).next_id() == old(self).next_id(),
            final(self).rate() == old(self).rate(),
            final(self).outcome() == old(self).outcome(),
    {
        if is_foe {
            self.enemy.coins.try_remove(cost)
        } else {
            self.player.coins.try_remove(cost)
        }
    }

    /// Puts a fresh unit for `request` at `position` and returns its id; `None`, with
    /// nothing changed, once no free id is left.
    pub fn place_unit(&mut self, request: SpawnUnit, position: Position) -> (r: Option<u64>)
        requires
            old(self).wf(),
        ensures
            final(self).wf(),
            old(self).next_id() < u64::MAX ==> {
                &&& r == Some(old(self).next_id())
                &&& final(self).entities() == old(self).entities().push(
                    new_unit(old(self).next_id(), request, position),
                )
                &&& final(self).next_id() == old(self).next_id() + 1
            },
            old(self).next_id() == u64::MAX ==> r is None && final(self).entities() == old(self).entities()
                && final(self).next_id() == old(self).next_id(),
            final(self).coins(false) == old(self).coins(false),
            final(self).coins(true) == old(self).coins(true),
            final(self).coin_limit(false) == old(self).coin_limit(false),
            final(self).coin_limit(true) == old(self).coin_limit(true),
            final(self).rate() == old(self).rate(),
            final(self).outcome() == old(self).outcome(),
    {
        if self.next_id == u64::MAX {
            return None;
        }
        let id = self.next_id;
        self.entities.push(
            Entity {
                id,
                kind: EntityKind::Unit(request.unit_type),
                is_foe: request.is_foe,
                position,
                health: Health::from(request.unit_type),
                attacking: None,
            },
        );
        self.next_id = id + 1;
        proof {
            let es = self.entities@;
            assert forall|i: int, j: int| 0 <= i < j < es.len() implies #[trigger] es[i].id
                < #[trigger] es[j].id by {
                if j < es.len() - 1 {
                    assert(old(self).entities@[i].id < old(self).entities@[j].id);
                } else {
                    assert(old(self).entities@[i].id < id);
                }
            }
            assert(alive(es[es.len() - 1]));
            assert forall|i: int| 0 <= i < es.len() implies #[trigger] es[i].id < id + 1 by {
                if i < es.len() - 1 {
                    assert(old(self).entities@[i].id < id);
                }
            }
            assert forall|i: int| 0 <= i < es.len() implies (#[trigger] es[i]).health.current
                <= es[i].health.max by {
                if i < es.len() - 1 {
                    assert(old(self).entities@[i].health.current <= old(self).entities@[i].health.max);
                }
            }
            assert forall|i: int| 0 <= i < es.len() && (#[trigger] es[i]).attacking is Some implies es[i].kind is Unit by {
                if i < es.len() - 1 {
                    assert(old(self).entities@[i].attacking is Some ==> old(self).entities@[i].kind is Unit);
                }
            }
        }
        Some(id)
    }

    /// Runs one tick of `dt_ms` milliseconds: each side earns coins, the spawn requests
    /// are served (request `i` placed with `jitter[i]`), then targeting, movement, the
    /// attack cycle, damage resolution, mortality and the win check run, in that order.
    /// Once the match is over, nothing changes any more.
    pub fn advance(&mut self, dt_ms: u32, requests: &Vec<SpawnUnit>, jitter: &Vec<SpawnJitter>) -> (r: TickSummary)
        requires
            old(self).wf(),
            requests.len() == jitter.len(),
        ensures
            final(self).wf(),
            steps_to(*old(self), *final(self), dt_ms, requests@, jitter@, r),
    {
        if self.winner.is_some() {
            return self.summary();
        }
        self.player.coins.accrue(self.coin_rate, dt_ms);
        self.enemy.coins.accrue(self.coin_rate, dt_ms);
        let mut entities: Vec<Entity> = Vec::new();
        std::mem::swap(&mut entities, &mut self.entities);
        let (spawned, next) = spawn_unit(entities, self.next_id, requests, jitter);
        proof {
            lemma_spawn_all_wf(old(self).entities@, old(self).next_id, requests@, jitter@);
            lemma_combat_wf(spawned@, next, dt_ms);
        }
        let engaged = unit_behavior(&spawned);
        let walked = move_units(&engaged, dt_ms);
        let (swung, attacks) = attack_animation(&walked, dt_ms);
        let hit = attack(swung, &attacks);
        let living = die(&hit);
        self.winner = game_end(&living);
        self.entities = living;
        self.next_id = next;
        let mut summary = self.summary();
        summary.attacks = attacks;
        summary
    }

    /// The store of a running match keeps the store's invariant: ids are distinct and
    /// increasing, only units attack, and each side has at most one base.
    pub proof fn lemma_store_wf(&self)
        requires
            self.wf(),
        ensures
            store_wf(self.entities(), self.next_id()),
            one_base_per_side(self.entities()),
            ids_distinct(self.entities()),
    {
        let es = self.entities();
        assert forall|i: int, j: int| 0 <= i < es.len() && 0 <= j < es.len() && i != j implies es[i].id
            != es[j].id by {
            if i < j {
                assert(es[i].id < es[j].id);
            } else {
                assert(es[j].id < es[i].id);
            }
        }
    }

    /// No entity of a match is dead between ticks: the sweep at the end of each tick has
    /// removed it.
    pub proof fn lemma_no_dead_in_snapshot(&self)
        requires
            self.wf(),
        ensures
            forall|i: int| 0 <= i < self.entities().len() ==> alive(#[trigger] self.entities()[i]),
    {
    }

    /// Runs one tick like `advance`, drawing the jitter of each spawn from `rng`.
    pub fn advance_with_rng(&mut self, dt_ms: u32, requests: &Vec<SpawnUnit>, rng: &mut RngComponent) -> (r: TickSummary)
        requires
            old(self).wf(),
        ensures
            final(self).wf(),
            exists|jitter: Seq<SpawnJitter>|
                {
                    &&& jitter.len() == requests@.len()
                    &&& forall|i: int| 0 <= i < jitter.len() ==> jitter_in_bounds(#[trigger] jitter[i])
                    &&& #[trigger] steps_to(*old(self), *final(self), dt_ms, requests@, jitter, r)
                },
    {
        let jitter = draw_jitters(rng, requests.len());
        let r = self.advance(dt_ms, requests, &jitter);
        assert(steps_to(*old(self), *self, dt_ms, requests@, jitter@, r));
        r
    }
}

} // verus!
