//! Simulation core of a script-driven bot world on a hexagonal grid.
//!
//! The crate holds the hex geometry, the Morton-ordered spatial table, the
//! entity storage, the bytecode model with its graph compiler and stack
//! machine, the path finder, the intent pipeline and the per-tick systems.
pub mod api;
pub mod ast;
pub mod bytecode;
pub mod geometry;
pub mod input_string;
pub mod intents;
pub mod model;
pub mod morton_key;
pub mod morton_table;
pub mod node_table;
pub mod pathfinding;
pub mod schema;
pub mod script_execution;
pub mod snapshot;
pub mod storage;
pub mod systems;
pub mod tables;
pub mod text;
pub mod vm;

use crate::geometry::Point;
use crate::intents::{
    all_in_bounds, apart, execute_intents, intent_views, intents_spec, lemma_apply_moves_apart,
    Intent, IntentView,
};
use crate::model::{EntityComponent, EntityId};
use crate::morton_table::in_bounds;
use crate::script_execution::{collected, execute_scripts};
use crate::storage::{Storage, WorldView};
use crate::systems::{
    decay_spec, execute_world_update, lemma_position_index_bijection, position_index, regen_spec,
    spawn_fold, spawn_spec, stands_at, systems_spec,
};
use crate::tables::sorted_keys;
use crate::vm::FloatUnit;
use vstd::prelude::*;

verus! {

/// Why a tick did not end.
#[derive(Debug, Clone, Copy, PartialEq, Eq, Structural)]
pub enum TickError {
    /// The clock stands at its last tick.
    ClockOverflow,
}

/// The world after a tick with the given intents: the intents are applied,
/// the systems run, and the clock advances by one, unless it stands at its
/// last tick.
pub open spec fn tick_spec(w: WorldView, intents: Seq<IntentView>) -> WorldView {
    WorldView {
        time: if w.time < u64::MAX {
            (w.time + 1) as u64
        } else {
            w.time
        },
        ..systems_spec(intents_spec(w, intents))
    }
}

/// After a tick the position index is the index of the positions.
pub proof fn lemma_tick_index(w: WorldView, intents: Seq<IntentView>)
    ensures
        tick_spec(w, intents).entity_at == position_index(tick_spec(w, intents).positions),
{
}

/// After a tick the position index and the positions are a bijection:
/// every entity is found at its cell, and every cell of the index leads to
/// an entity that stands on it. This holds of a world in which no two
/// entities stand on one cell, every entity stands in the range of the
/// tables, and no spawn has a bot in the making.
pub proof fn lemma_tick_bijection(w: WorldView, intents: Seq<IntentView>)
    requires
        apart(w.positions),
        all_in_bounds(w.positions),
        forall|id: u64| #[trigger] w.spawns.contains_key(id) ==> w.spawns[id].spawning is None,
    ensures
        ({
            let t = tick_spec(w, intents);
            &&& apart(t.positions)
            &&& all_in_bounds(t.positions)
            &&& forall|id: u64| #[trigger]
                t.positions.contains_key(id) ==> t.entity_at.contains_key(t.positions[id].0)
                    && t.entity_at[t.positions[id].0] == EntityComponent(EntityId(id))
            &&& forall|p: Point| #[trigger]
                t.entity_at.contains_key(p) ==> stands_at(t.positions, (t.entity_at[p].0).0, p)
        }),
{
    let i = intents_spec(w, intents);
    lemma_apply_moves_apart(w, intents, intents.len() as int);
    let d = decay_spec(i);
    assert(apart(d.positions)) by {
        assert forall|a: u64, b: u64| #[trigger]
            d.positions.contains_key(a) && #[trigger] d.positions.contains_key(b) && a
            != b implies d.positions[a].0 != d.positions[b].0 by {
            assert(i.positions.contains_key(a) && i.positions.contains_key(b));
        }
    }
    assert(all_in_bounds(d.positions)) by {
        assert forall|id: u64| #[trigger] d.positions.contains_key(id) implies in_bounds(
            d.positions[id].0,
        ) by {
            assert(i.positions.contains_key(id));
        }
    }
    let r = regen_spec(d);
    let ids = sorted_keys(r.spawns);
    lemma_idle_spawns(r, ids, ids.len() as int);
    let s = spawn_spec(r);
    assert(s.positions == d.positions);
    lemma_position_index_bijection(s.positions);
}

/// No entity has more hit points or more energy than it can have.
pub open spec fn within_limits(w: WorldView) -> bool {
    &&& forall|id: u64| #[trigger] w.hps.contains_key(id) ==> w.hps[id].hp <= w.hps[id].hp_max
    &&& forall|id: u64| #[trigger]
        w.energies.contains_key(id) ==> w.energies[id].energy <= w.energies[id].energy_max
}

/// A tick does not lift an entity above its limits, and does not change
/// what an entity carries.
pub proof fn lemma_tick_keeps_limits(w: WorldView, intents: Seq<IntentView>)
    requires
        within_limits(w),
    ensures
        within_limits(tick_spec(w, intents)),
        forall|id: u64| #[trigger]
            tick_spec(w, intents).carries.contains_key(id) ==> w.carries.contains_key(id)
                && tick_spec(w, intents).carries[id] == w.carries[id],
{
    let i = intents_spec(w, intents);
    let d = decay_spec(i);
    assert(within_limits(d)) by {
        assert forall|id: u64| #[trigger] d.hps.contains_key(id) implies d.hps[id].hp
            <= d.hps[id].hp_max by {
            assert(i.hps.contains_key(id));
        }
        assert forall|id: u64| #[trigger] d.energies.contains_key(id) implies d.energies[id].energy
            <= d.energies[id].energy_max by {
            assert(i.energies.contains_key(id));
        }
    }
    let r = regen_spec(d);
    assert(within_limits(r)) by {
        assert forall|id: u64| #[trigger] r.energies.contains_key(id) implies r.energies[id].energy
            <= r.energies[id].energy_max by {
            assert(d.energies.contains_key(id));
        }
    }
    let ids = sorted_keys(r.spawns);
    crate::systems::lemma_spawn_fold_keeps_limits(r, ids, ids.len() as int);
    assert forall|id: u64| #[trigger]
        tick_spec(w, intents).carries.contains_key(id) implies w.carries.contains_key(id)
        && tick_spec(w, intents).carries[id] == w.carries[id] by {
        assert(d.carries.contains_key(id));
    }
}

/// Spawns without a bot in the making leave the world as it is.
proof fn lemma_idle_spawns(w: WorldView, ids: Seq<u64>, n: int)
    requires
        forall|id: u64| #[trigger] w.spawns.contains_key(id) ==> w.spawns[id].spawning is None,
    ensures
        spawn_fold(w, ids, n) == w,
    decreases n,
{
    if n > 0 {
        lemma_idle_spawns(w, ids, n - 1);
    }
}

/// The stages of a tick after the scripts: apply the intents, run the
/// systems, advance the clock. Where the clock stands at its last tick the
/// error is returned after the world was changed, and the clock stays.
pub fn apply_tick(storage: &mut Storage, intents: Vec<Intent>) -> (r: Result<(), TickError>)
    requires
        old(storage).wf(),
    ensures
        final(storage).wf(),
        r is Ok <==> old(storage).time < u64::MAX,
        r is Err ==> r->Err_0 == TickError::ClockOverflow,
        final(storage)@ == tick_spec(old(storage)@, intent_views(intents@)),
{
    let ghost views = intent_views(intents@);
    execute_intents(intents, storage);
    execute_world_update(storage);
    proof {
        crate::systems::lemma_systems_keep(intents_spec(old(storage)@, views));
    }
    if storage.time == u64::MAX {
        return Err(TickError::ClockOverflow);
    }
    storage.time = storage.time + 1;
    Ok(())
}

/// Advance the world by one tick: run the scripts, apply what they
/// propose, run the systems, advance the clock.
pub fn forward<U: FloatUnit>(storage: &mut Storage, fpu: &U) -> (r: Result<(), TickError>)
    requires
        old(storage).wf(),
    ensures
        final(storage).wf(),
        r is Ok <==> old(storage).time < u64::MAX,
        r is Err ==> r->Err_0 == TickError::ClockOverflow,
        exists|intents: Seq<IntentView>| #[trigger]
            collected(&*old(storage), old(storage).scripts.ids(), intents) && final(storage)@
                == tick_spec(old(storage)@, intents),
        final(storage)@.entity_at == position_index(final(storage)@.positions),
{
    let final_intents = execute_scripts(storage, fpu);
    let ghost views = intent_views(final_intents@);
    let r = apply_tick(storage, final_intents);
    proof {
        lemma_tick_index(old(storage)@, views);
    }
    r
}

/// A world without entities at tick 0, with every table in place.
pub fn init_inmemory_storage() -> (storage: Storage)
    ensures
        storage.wf(),
        storage.is_empty(),
        storage.time == 0,
        storage.next_entity == 0,
{
    Storage::new()
}

} // verus!
