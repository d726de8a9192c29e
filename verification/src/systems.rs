//! The systems that run after the intents of a tick were applied, in this
//! order: decay, energy regeneration, spawn progress, rebuild of the
//! position index.
use crate::geometry::Point;
use crate::intents::{all_in_bounds, apart, taken};
use crate::model::{
    DecayComponent, EnergyComponent, EnergyRegenComponent, EntityComponent, EntityId, HpComponent,
    PositionComponent, SpawnComponent,
};
use crate::morton_table::{
    extend_spec, in_bounds, lemma_bulk_build_get, MortonTable,
};
use crate::storage::{DeleteEntityView, Storage, WorldView};
use crate::tables::{join_spec, lemma_join, sorted_keys, strictly_increasing, BTreeTable};
use vstd::prelude::*;

verus! {

/// One tick of decay on one entity: the timer runs down by one, and once
/// it is at zero the entity loses `hp_amount` hit points, or all it has.
pub open spec fn decay_step(d: DecayComponent, hp: HpComponent) -> (DecayComponent, HpComponent) {
    let t = if d.t > 0 {
        (d.t - 1) as u8
    } else {
        0u8
    };
    let lost = if hp.hp <= d.hp_amount {
        hp.hp
    } else {
        d.hp_amount
    };
    let left = if t == 0 {
        (hp.hp - lost) as u16
    } else {
        hp.hp
    };
    (DecayComponent { t, ..d }, HpComponent { hp: left, ..hp })
}

/// The entity decays in this tick and is left without hit points.
pub open spec fn dies(
    decays: Map<u64, DecayComponent>,
    hps: Map<u64, HpComponent>,
    id: u64,
) -> bool {
    decays.contains_key(id) && hps.contains_key(id) && decay_step(decays[id], hps[id]).1.hp == 0
}

/// The decay timers after the entities `done` decayed.
pub open spec fn aged_decays(
    decays: Map<u64, DecayComponent>,
    hps: Map<u64, HpComponent>,
    done: Set<u64>,
) -> Map<u64, DecayComponent> {
    Map::new(
        |id: u64| decays.contains_key(id),
        |id: u64|
            if done.contains(id) {
                decay_step(decays[id], hps[id]).0
            } else {
                decays[id]
            },
    )
}

/// The hit points after the entities `done` decayed.
pub open spec fn aged_hps(
    decays: Map<u64, DecayComponent>,
    hps: Map<u64, HpComponent>,
    done: Set<u64>,
) -> Map<u64, HpComponent> {
    Map::new(
        |id: u64| hps.contains_key(id),
        |id: u64|
            if done.contains(id) {
                decay_step(decays[id], hps[id]).1
            } else {
                hps[id]
            },
    )
}

/// The entities with a decay timer and hit points.
pub open spec fn decaying(decays: Map<u64, DecayComponent>, hps: Map<u64, HpComponent>) -> Set<u64> {
    Set::new(|id: u64| decays.contains_key(id) && hps.contains_key(id))
}

/// The entities of `ids` that die in this tick, in order.
pub open spec fn dead_among(
    decays: Map<u64, DecayComponent>,
    hps: Map<u64, HpComponent>,
    ids: Seq<u64>,
) -> Seq<u64>
    decreases ids.len(),
{
    if ids.len() == 0 {
        Seq::empty()
    } else if dies(decays, hps, ids.last()) {
        dead_among(decays, hps, ids.drop_last()).push(ids.last())
    } else {
        dead_among(decays, hps, ids.drop_last())
    }
}

/// The world after the decay system: every entity with a decay timer and
/// hit points decays, and those left without hit points are removed.
pub open spec fn decay_spec(w: WorldView) -> WorldView {
    let all = decaying(w.decays, w.hps);
    (WorldView {
        decays: aged_decays(w.decays, w.hps, all),
        hps: aged_hps(w.decays, w.hps, all),
        ..w
    }).without(Set::new(|id: u64| dies(w.decays, w.hps, id)))
}

proof fn lemma_dead_among(decays: Map<u64, DecayComponent>, hps: Map<u64, HpComponent>, ids: Seq<u64>)
    ensures
        dead_among(decays, hps, ids).to_set() =~= Set::new(
            |id: u64| ids.contains(id) && dies(decays, hps, id),
        ),
    decreases ids.len(),
{
    let dead = dead_among(decays, hps, ids);
    let target = Set::new(|id: u64| ids.contains(id) && dies(decays, hps, id));
    if ids.len() == 0 {
        assert(dead.to_set() =~= target);
    } else {
        let front = ids.drop_last();
        lemma_dead_among(decays, hps, front);
        let df = dead_among(decays, hps, front);
        assert forall|k: u64| dead.to_set().contains(k) <==> target.contains(k) by {
            if dead.contains(k) {
                let i = dead.index_of(k);
                if i < df.len() {
                    assert(df[i] == k);
                    assert(df.to_set().contains(k));
                    assert(front.contains(k));
                    let m = front.index_of(k);
                    assert(ids[m] == k);
                } else {
                    assert(ids[ids.len() - 1] == k);
                }
            }
            if target.contains(k) {
                let m = ids.index_of(k);
                if m < front.len() {
                    assert(front[m] == k);
                    assert(df.to_set().contains(k));
                    let i = df.index_of(k);
                    assert(dead[i] == k);
                } else {
                    assert(dead[dead.len() - 1] == k);
                }
            }
        }
    }
}

/// The decay system.
pub struct DecaySystem {}

impl DecaySystem {
    /// Let every entity with hit points and a decay timer decay, and name
    /// those that are left without hit points for removal.
    pub fn update(
        &mut self,
        hps: &mut BTreeTable<HpComponent>,
        decays: &mut BTreeTable<DecayComponent>,
        delete: &mut DeleteEntityView,
    )
        requires
            old(hps).wf(),
            old(decays).wf(),
        ensures
            final(hps).wf(),
            final(decays).wf(),
            final(decays)@ == aged_decays(
                old(decays)@,
                old(hps)@,
                decaying(old(decays)@, old(hps)@),
            ),
            final(hps)@ == aged_hps(old(decays)@, old(hps)@, decaying(old(decays)@, old(hps)@)),
            final(delete)@ == old(delete)@ + dead_among(
                old(decays)@,
                old(hps)@,
                join_spec(old(decays).ids(), old(hps)@.dom()),
            ),
            final(delete)@.to_set() == old(delete)@.to_set().union(
                Set::new(|id: u64| dies(old(decays)@, old(hps)@, id)),
            ),
    {
        let ghost d0 = decays@;
        let ghost h0 = hps@;
        let ids: Vec<u64> = decays.join_ids(hps);
        proof {
            lemma_join(decays.ids(), hps@.dom());
            assert(ids@.take(0).to_set() =~= Set::<u64>::empty());
            assert(decays@ =~= aged_decays(d0, h0, Set::<u64>::empty()));
            assert(hps@ =~= aged_hps(d0, h0, Set::<u64>::empty()));
            assert(ids@.take(0) =~= Seq::<u64>::empty());
            assert(delete@ + Seq::<u64>::empty() =~= delete@);
        }
        let n: usize = ids.len();
        let mut i: usize = 0;
        while i < n
            invariant
                hps.wf(),
                decays.wf(),
                n == ids@.len(),
                i <= n,
                strictly_increasing(ids@),
                forall|k: u64| #[trigger] ids@.contains(k) ==> d0.contains_key(k) && h0.contains_key(k),
                decays@ == aged_decays(d0, h0, ids@.take(i as int).to_set()),
                hps@ == aged_hps(d0, h0, ids@.take(i as int).to_set()),
                delete@ == old(delete)@ + dead_among(d0, h0, ids@.take(i as int)),
            decreases n - i,
        {
            let id: u64 = ids[i];
            proof {
                assert(ids@.contains(id));
                assert(!ids@.take(i as int).to_set().contains(id)) by {
                    if ids@.take(i as int).contains(id) {
                        let m = ids@.take(i as int).index_of(id);
                        assert(ids@[m] < ids@[i as int]);
                    }
                }
                ids@.take(i as int).lemma_push_to_set_commute(id);
                assert(ids@.take(i as int + 1) =~= ids@.take(i as int).push(id));
                assert(ids@.take(i as int + 1).drop_last() =~= ids@.take(i as int));
            }
            let d: DecayComponent = match decays.get_by_id(id) {
                Some(d) => *d,
                None => DecayComponent { hp_amount: 0, eta: 0, t: 0 },
            };
            let hp: HpComponent = match hps.get_by_id(id) {
                Some(hp) => *hp,
                None => HpComponent { hp: 0, hp_max: 0 },
            };
            let t: u8 = if d.t > 0 {
                d.t - 1
            } else {
                0
            };
            let lost: u16 = if hp.hp <= d.hp_amount {
                hp.hp
            } else {
                d.hp_amount
            };
            let left: u16 = if t == 0 {
                hp.hp - lost
            } else {
                hp.hp
            };
            decays.insert(id, DecayComponent { hp_amount: d.hp_amount, eta: d.eta, t });
            hps.insert(id, HpComponent { hp: left, hp_max: hp.hp_max });
            if left == 0 {
                delete.delete_entity(EntityId(id));
            }
            proof {
                let done = ids@.take(i as int).to_set();
                assert(decays@ =~= aged_decays(d0, h0, done.insert(id)));
                assert(hps@ =~= aged_hps(d0, h0, done.insert(id)));
                let dead = dead_among(d0, h0, ids@.take(i as int));
                if left == 0 {
                    assert(old(delete)@ + dead.push(id) =~= (old(delete)@ + dead).push(id));
                }
            }
            i += 1;
        }
        proof {
            assert(ids@.take(n as int) =~= ids@);
            assert(ids@.to_set() =~= decaying(d0, h0));
            lemma_dead_among(d0, h0, ids@);
            let dead = dead_among(d0, h0, ids@);
            vstd::seq_lib::seq_to_set_distributes_over_add(old(delete)@, dead);
            assert(dead.to_set() =~= Set::new(|id: u64| dies(d0, h0, id)));
        }
    }
}

/// One tick of regeneration: the energy grows by the amount and stops at the most.
pub open spec fn regen_step(e: EnergyComponent, r: EnergyRegenComponent) -> EnergyComponent {
    EnergyComponent {
        energy: if e.energy + r.amount >= e.energy_max {
            e.energy_max
        } else {
            (e.energy + r.amount) as u16
        },
        ..e
    }
}

/// The energies after the entities `done` regenerated.
pub open spec fn regenerated(
    energies: Map<u64, EnergyComponent>,
    regens: Map<u64, EnergyRegenComponent>,
    done: Set<u64>,
) -> Map<u64, EnergyComponent> {
    Map::new(
        |id: u64| energies.contains_key(id),
        |id: u64|
            if done.contains(id) {
                regen_step(energies[id], regens[id])
            } else {
                energies[id]
            },
    )
}

/// The world after the energy system: every entity with energy and a
/// regeneration gains energy.
pub open spec fn regen_spec(w: WorldView) -> WorldView {
    WorldView {
        energies: regenerated(
            w.energies,
            w.energy_regens,
            Set::new(|id: u64| w.energies.contains_key(id) && w.energy_regens.contains_key(id)),
        ),
        ..w
    }
}

/// Let every entity with energy and a regeneration gain energy.
pub fn update_energy(
    energies: &mut BTreeTable<EnergyComponent>,
    regens: &BTreeTable<EnergyRegenComponent>,
)
    requires
        old(energies).wf(),
        regens.wf(),
    ensures
        final(energies).wf(),
        final(energies)@ == regenerated(
            old(energies)@,
            regens@,
            Set::new(|id: u64| old(energies)@.contains_key(id) && regens@.contains_key(id)),
        ),
{
    let ghost e0 = energies@;
    let ids: Vec<u64> = energies.join_ids(regens);
    proof {
        lemma_join(energies.ids(), regens@.dom());
        assert(ids@.take(0).to_set() =~= Set::<u64>::empty());
        assert(energies@ =~= regenerated(e0, regens@, Set::<u64>::empty()));
    }
    let n: usize = ids.len();
    let mut i: usize = 0;
    while i < n
        invariant
            energies.wf(),
            regens.wf(),
            n == ids@.len(),
            i <= n,
            strictly_increasing(ids@),
            forall|k: u64|
                #[trigger] ids@.contains(k) ==> e0.contains_key(k) && regens@.contains_key(k),
            energies@ == regenerated(e0, regens@, ids@.take(i as int).to_set()),
        decreases n - i,
    {
        let id: u64 = ids[i];
        proof {
            assert(ids@.contains(id));
            assert(!ids@.take(i as int).to_set().contains(id)) by {
                if ids@.take(i as int).contains(id) {
                    let m = ids@.take(i as int).index_of(id);
                    assert(ids@[m] < ids@[i as int]);
                }
            }
            ids@.take(i as int).lemma_push_to_set_commute(id);
            assert(ids@.take(i as int + 1) =~= ids@.take(i as int).push(id));
        }
        let e: EnergyComponent = match energies.get_by_id(id) {
            Some(e) => *e,
            None => EnergyComponent { energy: 0, energy_max: 0 },
        };
        let amount: u16 = match regens.get_by_id(id) {
            Some(r) => r.amount,
            None => 0,
        };
        let energy: u16 = if e.energy as u32 + amount as u32 >= e.energy_max as u32 {
            e.energy_max
        } else {
            e.energy + amount
        };
        energies.insert(id, EnergyComponent { energy, energy_max: e.energy_max });
        proof {
            let done = ids@.take(i as int).to_set();
            assert(energies@ =~= regenerated(e0, regens@, done.insert(id)));
        }
        i += 1;
    }
    proof {
        assert(ids@.take(n as int) =~= ids@);
        assert(ids@.to_set() =~= Set::new(
            |id: u64| e0.contains_key(id) && regens@.contains_key(id),
        ));
    }
}

/// One tick of one spawn: the timer of a bot in the making runs down by
/// one; at zero the bot is done. It becomes a bot and gets the position and
/// the owner of the spawn, as far as the spawn has them.
pub open spec fn spawn_step(w: WorldView, id: u64) -> WorldView {
    if !w.spawns.contains_key(id) || w.spawns[id].spawning is None {
        w
    } else {
        let s = w.spawns[id];
        let b = (s.spawning->0).0;
        if s.time_to_spawn > 1 {
            WorldView {
                spawns: w.spawns.insert(
                    id,
                    SpawnComponent { time_to_spawn: (s.time_to_spawn - 1) as u8, ..s },
                ),
                ..w
            }
        } else {
            let made = w.spawn_bots.contains_key(b);
            WorldView {
                spawns: w.spawns.insert(id, SpawnComponent { time_to_spawn: 0, spawning: None }),
                bots: if made {
                    w.bots.insert(b, w.spawn_bots[b].bot)
                } else {
                    w.bots
                },
                spawn_bots: w.spawn_bots.remove(b),
                positions: if made && w.positions.contains_key(id) {
                    w.positions.insert(b, w.positions[id])
                } else {
                    w.positions
                },
                owners: if made && w.owners.contains_key(id) {
                    w.owners.insert(b, w.owners[id])
                } else {
                    w.owners
                },
                ..w
            }
        }
    }
}

/// The world after the first `n` spawns of `ids` had their tick.
pub open spec fn spawn_fold(w: WorldView, ids: Seq<u64>, n: int) -> WorldView
    decreases n,
{
    if n <= 0 {
        w
    } else {
        spawn_step(spawn_fold(w, ids, n - 1), ids[n - 1])
    }
}

/// The ticks of spawns leave the clock, the terrain and the users as they are.
pub proof fn lemma_spawn_fold_keeps(w: WorldView, ids: Seq<u64>, n: int)
    ensures
        spawn_fold(w, ids, n).time == w.time,
        spawn_fold(w, ids, n).next_entity == w.next_entity,
        spawn_fold(w, ids, n).terrain == w.terrain,
        spawn_fold(w, ids, n).users == w.users,
        spawn_fold(w, ids, n).logs == w.logs,
    decreases n,
{
    if n > 0 {
        lemma_spawn_fold_keeps(w, ids, n - 1);
    }
}

/// The ticks of spawns leave hit points, energies and what is carried as they are.
pub proof fn lemma_spawn_fold_keeps_limits(w: WorldView, ids: Seq<u64>, n: int)
    ensures
        spawn_fold(w, ids, n).hps == w.hps,
        spawn_fold(w, ids, n).energies == w.energies,
        spawn_fold(w, ids, n).carries == w.carries,
    decreases n,
{
    if n > 0 {
        lemma_spawn_fold_keeps_limits(w, ids, n - 1);
    }
}

/// The world after the spawn system: every spawn has its tick, by ascending id.
pub open spec fn spawn_spec(w: WorldView) -> WorldView {
    spawn_fold(w, sorted_keys(w.spawns), sorted_keys(w.spawns).len() as int)
}

/// One tick of the spawn `id`.
pub fn update_spawn(storage: &mut Storage, id: u64)
    requires
        old(storage).wf(),
    ensures
        final(storage).wf(),
        final(storage)@ == spawn_step(old(storage)@, id),
{
    let s: SpawnComponent = match storage.spawns.get_by_id(id) {
        Some(s) => *s,
        None => { return ; },
    };
    let b: u64 = match s.spawning {
        Some(b) => b.0,
        None => { return ; },
    };
    if s.time_to_spawn > 1 {
        storage.spawns.insert(
            id,
            SpawnComponent { time_to_spawn: s.time_to_spawn - 1, spawning: s.spawning },
        );
        return ;
    }
    storage.spawns.insert(id, SpawnComponent { time_to_spawn: 0, spawning: None });
    match storage.spawn_bots.remove(b) {
        Some(made) => {
            storage.bots.insert(b, made.bot);
            let position: Option<PositionComponent> = match storage.positions.get_by_id(id) {
                Some(p) => Some(*p),
                None => None,
            };
            match position {
                Some(p) => {
                    storage.positions.insert(b, p);
                },
                None => {},
            }
            let owner = match storage.owners.get_by_id(id) {
                Some(o) => Some(*o),
                None => None,
            };
            match owner {
                Some(o) => {
                    storage.owners.insert(b, o);
                },
                None => {},
            }
        },
        None => {},
    }
}

/// Let every spawn have its tick, by ascending id.
pub fn update_spawns(storage: &mut Storage)
    requires
        old(storage).wf(),
    ensures
        final(storage).wf(),
        final(storage)@ == spawn_spec(old(storage)@),
{
    let ghost w = storage@;
    let n: usize = storage.spawns.len();
    let mut ids: Vec<u64> = Vec::new();
    let mut i: usize = 0;
    while i < n
        invariant
            storage.wf(),
            *storage == *old(storage),
            n == storage.spawns.ids().len(),
            i <= n,
            ids@ == storage.spawns.ids().take(i as int),
        decreases n - i,
    {
        ids.push(storage.spawns.key_at(i));
        proof {
            assert(storage.spawns.ids().take(i as int + 1) =~= storage.spawns.ids().take(
                i as int,
            ).push(storage.spawns.ids()[i as int]));
        }
        i += 1;
    }
    proof {
        assert(storage.spawns.ids().take(n as int) =~= storage.spawns.ids());
        storage.spawns.lemma_sorted_keys();
    }
    let mut i: usize = 0;
    while i < n
        invariant
            storage.wf(),
            n == ids@.len(),
            i <= n,
            ids@ == sorted_keys(w.spawns),
            storage@ == spawn_fold(w, ids@, i as int),
        decreases n - i,
    {
        update_spawn(storage, ids[i]);
        i += 1;
    }
}

/// The entity `id` stands at `p`.
pub open spec fn stands_at(positions: Map<u64, PositionComponent>, id: u64, p: Point) -> bool {
    positions.contains_key(id) && positions[id].0 == p
}

/// The entity with the least id among those that stand at `p`.
pub open spec fn least_at(positions: Map<u64, PositionComponent>, p: Point) -> u64 {
    choose|id: u64|
        stands_at(positions, id, p) && forall|o: u64| #[trigger]
            stands_at(positions, o, p) ==> id <= o
}

/// The position index of the given positions: every cell of the 16-bit
/// range on which an entity stands leads to the entity with the least id
/// that stands on it.
pub open spec fn position_index(positions: Map<u64, PositionComponent>) -> Map<
    Point,
    EntityComponent,
> {
    Map::new(
        |p: Point| in_bounds(p) && taken(positions, p),
        |p: Point| EntityComponent(EntityId(least_at(positions, p))),
    )
}

/// The world after the rebuild of the position index.
pub open spec fn rebuild_spec(w: WorldView) -> WorldView {
    WorldView { entity_at: position_index(w.positions), ..w }
}

/// Where no two entities stand on one cell and every entity stands in the
/// 16-bit range, the position index and the positions are a bijection:
/// every entity is found at its cell, and every cell of the index leads to
/// an entity that stands on it.
pub proof fn lemma_position_index_bijection(positions: Map<u64, PositionComponent>)
    requires
        apart(positions),
        all_in_bounds(positions),
    ensures
        forall|id: u64| #[trigger]
            positions.contains_key(id) ==> position_index(positions).contains_key(positions[id].0)
                && position_index(positions)[positions[id].0] == EntityComponent(EntityId(id)),
        forall|p: Point| #[trigger]
            position_index(positions).contains_key(p) ==> stands_at(
                positions,
                (position_index(positions)[p].0).0,
                p,
            ),
{
    let index = position_index(positions);
    assert forall|p: Point| #[trigger] index.contains_key(p) implies stands_at(
        positions,
        (index[p].0).0,
        p,
    ) by {
        lemma_least_at(positions, p);
    }
    assert forall|id: u64| #[trigger] positions.contains_key(id) implies index.contains_key(
        positions[id].0,
    ) && index[positions[id].0] == EntityComponent(EntityId(id)) by {
        let p = positions[id].0;
        assert(stands_at(positions, id, p));
        lemma_least_at(positions, p);
        let l = least_at(positions, p);
        assert(positions.contains_key(l) && positions.contains_key(id));
    }
}

/// Where an entity stands at `p`, the least of them does.
pub proof fn lemma_least_at(positions: Map<u64, PositionComponent>, p: Point)
    requires
        taken(positions, p),
    ensures
        stands_at(positions, least_at(positions, p), p),
        forall|o: u64| #[trigger] stands_at(positions, o, p) ==> least_at(positions, p) <= o,
{
    let some = choose|id: u64| #[trigger] positions.contains_key(id) && positions[id].0 == p;
    assert(stands_at(positions, some, p));
    lemma_least_exists(positions, p, some);
}

proof fn lemma_least_exists(positions: Map<u64, PositionComponent>, p: Point, bound: u64)
    requires
        stands_at(positions, bound, p),
    ensures
        exists|id: u64|
            stands_at(positions, id, p) && forall|o: u64| #[trigger]
                stands_at(positions, o, p) ==> id <= o,
    decreases bound,
{
    if exists|o: u64| #[trigger] stands_at(positions, o, p) && o < bound {
        let o = choose|o: u64| #[trigger] stands_at(positions, o, p) && o < bound;
        lemma_least_exists(positions, p, o);
    } else {
        assert(forall|o: u64| #[trigger] stands_at(positions, o, p) ==> bound <= o);
    }
}

/// The entries of the position index in the order they are inserted.
pub open spec fn index_entries(ids: Seq<u64>, rows: Seq<PositionComponent>) -> Seq<
    (Point, EntityComponent),
> {
    Seq::new(ids.len(), |i: int| (rows[i].0, EntityComponent(EntityId(ids[i]))))
}

/// The first place at which `p` stands among `items`.
proof fn lemma_first_occurrence<T>(items: Seq<(Point, T)>, p: Point, at: int) -> (i: int)
    requires
        0 <= at < items.len(),
        items[at].0 == p,
    ensures
        0 <= i <= at,
        items[i].0 == p,
        forall|j: int| 0 <= j < i ==> items[j].0 != p,
    decreases at,
{
    if exists|j: int| 0 <= j < at && items[j].0 == p {
        let j = choose|j: int| 0 <= j < at && items[j].0 == p;
        lemma_first_occurrence(items, p, j)
    } else {
        at
    }
}

/// A cell that the extension of the empty map holds stands among the items.
proof fn lemma_extend_holds<T>(items: Seq<(Point, T)>, p: Point) -> (i: int)
    requires
        extend_spec(Map::<Point, T>::empty(), items).contains_key(p),
    ensures
        0 <= i < items.len(),
        items[i].0 == p,
        in_bounds(p),
    decreases items.len(),
{
    if items.len() == 0 {
        0
    } else if extend_spec(Map::<Point, T>::empty(), items.drop_last()).contains_key(p) {
        lemma_extend_holds(items.drop_last(), p)
    } else {
        items.len() - 1
    }
}

/// Inserting the positions by ascending id gives the position index.
proof fn lemma_rebuild(table: &BTreeTable<PositionComponent>)
    requires
        table.wf(),
    ensures
        extend_spec(
            Map::<Point, EntityComponent>::empty(),
            index_entries(table.ids(), table.rows()),
        ) =~= position_index(table@),
{
    let items = index_entries(table.ids(), table.rows());
    let built = extend_spec(Map::<Point, EntityComponent>::empty(), items);
    let index = position_index(table@);
    assert forall|p: Point| built.contains_key(p) <==> index.contains_key(p) by {
        if built.contains_key(p) {
            let i = lemma_extend_holds(items, p);
            table.lemma_row_at(i);
            assert(table@.contains_key(table.ids()[i]) && table@[table.ids()[i]].0 == p);
        }
        if index.contains_key(p) {
            lemma_least_at(table@, p);
            let l = least_at(table@, p);
            let i = table.ids().index_of(l);
            table.lemma_row_at(i);
            assert(items[i].0 == p);
            let f = lemma_first_occurrence(items, p, i);
            lemma_bulk_build_get(items, f);
        }
    }
    assert forall|p: Point| built.contains_key(p) implies built[p] == index[p] by {
        let i = lemma_extend_holds(items, p);
        let f = lemma_first_occurrence(items, p, i);
        lemma_bulk_build_get(items, f);
        table.lemma_row_at(f);
        let id = table.ids()[f];
        assert(stands_at(table@, id, p));
        lemma_least_at(table@, p);
        let l = least_at(table@, p);
        let li = table.ids().index_of(l);
        table.lemma_row_at(li);
        assert(items[li].0 == p);
        if li < f {
            assert(items[li].0 != p);
        }
        if f < li {
            assert(table.ids()[f] < table.ids()[li]);
        }
    }
}

/// Clear the position index and build it again from the positions.
pub fn rebuild_position_index(
    positions: &BTreeTable<PositionComponent>,
    index: &mut MortonTable<EntityComponent>,
)
    requires
        positions.wf(),
    ensures
        final(index).wf(),
        final(index)@ == position_index(positions@),
{
    let n: usize = positions.len();
    let mut entries: Vec<(Point, EntityComponent)> = Vec::new();
    let mut i: usize = 0;
    while i < n
        invariant
            positions.wf(),
            n == positions.ids().len(),
            i <= n,
            entries@ == index_entries(positions.ids(), positions.rows()).take(i as int),
        decreases n - i,
    {
        let id: u64 = positions.key_at(i);
        let p: Point = positions.value_at(i).0;
        entries.push((p, EntityComponent(EntityId(id))));
        proof {
            let all = index_entries(positions.ids(), positions.rows());
            assert(all.take(i as int + 1) =~= all.take(i as int).push(all[i as int]));
        }
        i += 1;
    }
    proof {
        let all = index_entries(positions.ids(), positions.rows());
        assert(all.take(n as int) =~= all);
        lemma_rebuild(positions);
    }
    index.clear();
    index.extend(entries);
}

/// The world after the systems of a tick, in their order.
pub open spec fn systems_spec(w: WorldView) -> WorldView {
    rebuild_spec(spawn_spec(regen_spec(decay_spec(w))))
}

/// The systems leave the clock, the terrain, the users and the log as they are.
pub proof fn lemma_systems_keep(w: WorldView)
    ensures
        systems_spec(w).time == w.time,
        systems_spec(w).next_entity == w.next_entity,
        systems_spec(w).terrain == w.terrain,
        systems_spec(w).users == w.users,
        systems_spec(w).logs == w.logs,
{
    let r = regen_spec(decay_spec(w));
    lemma_spawn_fold_keeps(r, sorted_keys(r.spawns), sorted_keys(r.spawns).len() as int);
}

/// Run the systems of a tick: decay, energy, spawns, position index.
pub fn execute_world_update(storage: &mut Storage)
    requires
        old(storage).wf(),
    ensures
        final(storage).wf(),
        final(storage)@ == systems_spec(old(storage)@),
{
    let ghost w = storage@;
    let mut delete = DeleteEntityView::new();
    let mut system = DecaySystem {  };
    system.update(&mut storage.hps, &mut storage.decays, &mut delete);
    storage.delete_all(&delete);
    proof {
        assert(delete@.to_set() =~= Set::new(|id: u64| dies(w.decays, w.hps, id)));
        assert(storage@ =~= decay_spec(w));
    }
    update_energy(&mut storage.energies, &storage.energy_regens);
    proof {
        assert(storage@ =~= regen_spec(decay_spec(w)));
    }
    update_spawns(storage);
    rebuild_position_index(&storage.positions, &mut storage.entity_at);
    proof {
        assert(storage@ =~= systems_spec(w));
    }
}

} // verus!
