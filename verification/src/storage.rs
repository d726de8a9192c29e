//! The storage of a world: a fixed record of component tables and the clock.
use crate::geometry::Point;
use crate::model::{
    Bot, CarryComponent, DecayComponent, EnergyComponent, EnergyRegenComponent, EntityComponent,
    EntityId, EntityScript, HpComponent, LogEntry, OwnedEntity, PositionComponent,
    ResourceComponent, ScriptComponent, SpawnBotComponent, SpawnComponent, Structure,
    TerrainComponent, UserComponent,
};
use crate::morton_table::MortonTable;
use crate::tables::BTreeTable;
use vstd::prelude::*;

verus! {

/// What the entities logged, by tick and entity.
pub struct LogTable {
    pub by_time: BTreeTable<BTreeTable<LogEntry>>,
}

impl LogTable {
    pub open spec fn wf(&self) -> bool {
        &&& self.by_time.wf()
        &&& forall|i: int|
            0 <= i < self.by_time.rows().len() ==> (#[trigger] self.by_time.rows()[i]).wf()
    }

    /// An entry is held for the entity and the tick.
    pub open spec fn has(&self, entity: EntityId, time: u64) -> bool {
        self.by_time@.contains_key(time) && self.by_time@[time]@.contains_key(entity.0)
    }

    /// The lines that the entity logged in the tick; none where no entry is held.
    pub open spec fn lines(&self, entity: EntityId, time: u64) -> Seq<Seq<char>> {
        if self.has(entity, time) {
            self.by_time@[time]@[entity.0].lines()
        } else {
            Seq::empty()
        }
    }

    /// The table as a map from entity and tick to the lines logged.
    pub open spec fn view(&self) -> Map<(u64, u64), Seq<Seq<char>>> {
        Map::new(
            |k: (u64, u64)| self.has(EntityId(k.0), k.1),
            |k: (u64, u64)| self.lines(EntityId(k.0), k.1),
        )
    }

    proof fn lemma_rows_wf(&self, time: u64)
        requires
            self.wf(),
            self.by_time@.contains_key(time),
        ensures
            self.by_time@[time].wf(),
    {
        let i = self.by_time.ids().index_of(time);
        self.by_time.lemma_row_at(i);
    }

    pub fn new() -> (t: Self)
        ensures
            t.wf(),
            forall|e: EntityId, time: u64| !t.has(e, time),
    {
        LogTable { by_time: BTreeTable::new() }
    }

    pub fn get_by_id(&self, entity: EntityId, time: u64) -> (r: Option<&LogEntry>)
        requires
            self.wf(),
        ensures
            r is Some <==> self.has(entity, time),
            r is Some ==> r->0.lines() == self.lines(entity, time),
    {
        match self.by_time.get_by_id(time) {
            None => None,
            Some(entries) => {
                proof {
                    self.lemma_rows_wf(time);
                }
                entries.get_by_id(entity.0)
            },
        }
    }

    /// What was logged in a tick, by entity.
    pub fn get_logs_by_time(&self, time: u64) -> (r: Option<&BTreeTable<LogEntry>>)
        requires
            self.wf(),
        ensures
            r is Some <==> self.by_time@.contains_key(time),
            r is Some ==> *r->0 == self.by_time@[time] && r->0.wf(),
    {
        proof {
            if self.by_time@.contains_key(time) {
                self.lemma_rows_wf(time);
            }
        }
        self.by_time.get_by_id(time)
    }

    /// Append `line` to what the entity logged in the tick.
    pub fn push_line(&mut self, entity: EntityId, time: u64, line: String)
        requires
            old(self).wf(),
        ensures
            final(self).wf(),
            final(self).has(entity, time),
            final(self).lines(entity, time) == old(self).lines(entity, time).push(line@),
            final(self)@ == old(self)@.insert(
                (entity.0, time),
                old(self).lines(entity, time).push(line@),
            ),
            forall|e: EntityId, t: u64|
                (e != entity || t != time) ==> final(self).has(e, t) == old(self).has(e, t)
                    && final(self).lines(e, t) == old(self).lines(e, t),
    {
        let ghost before = *self;
        proof {
            if self.by_time@.contains_key(time) {
                self.lemma_rows_wf(time);
            }
        }
        let mut entries: BTreeTable<LogEntry> = match self.by_time.remove(time) {
            Some(entries) => entries,
            None => BTreeTable::new(),
        };
        let ghost entries_before = entries;
        let mut entry: LogEntry = match entries.remove(entity.0) {
            Some(entry) => entry,
            None => LogEntry { payload: Vec::new() },
        };
        let ghost entry_before = entry;
        entry.payload.push(line);
        proof {
            assert(entry.lines() =~= entry_before.lines().push(line@));
            assert(entry_before.lines() =~= before.lines(entity, time));
        }
        entries.insert(entity.0, entry);
        self.by_time.insert(time, entries);
        proof {
            assert forall|i: int| 0 <= i < self.by_time.rows().len() implies (
            #[trigger] self.by_time.rows()[i]).wf() by {
                self.by_time.lemma_row_at(i);
                let t = self.by_time.ids()[i];
                if t != time {
                    assert(before.by_time@.contains_key(t));
                    before.lemma_rows_wf(t);
                }
            }
            assert forall|e: EntityId, t: u64| (e != entity || t != time) implies self.has(e, t)
                == before.has(e, t) && self.lines(e, t) == before.lines(e, t) by {
                if t == time {
                    assert(self.by_time@[t] == entries);
                    assert(entries@ == entries_before@.remove(entity.0).insert(entity.0, entry));
                    if before.by_time@.contains_key(time) {
                        assert(entries_before == before.by_time@[time]);
                    } else {
                        assert(entries_before@ == Map::<u64, LogEntry>::empty());
                    }
                } else {
                    assert(self.by_time@.contains_key(t) == before.by_time@.contains_key(t));
                }
            }
            let target = before@.insert((entity.0, time), before.lines(entity, time).push(line@));
            assert forall|k: (u64, u64)| self@.contains_key(k) <==> target.contains_key(k) by {
                assert(k.0 == entity.0 && k.1 == time || EntityId(k.0) != entity || k.1 != time);
            }
            assert forall|k: (u64, u64)| self@.contains_key(k) implies self@[k] == target[k] by {
                assert(k.0 == entity.0 && k.1 == time || EntityId(k.0) != entity || k.1 != time);
            }
            assert(self@ =~= target);
        }
    }
}

/// The world as plain data: every table as a map.
#[verifier::ext_equal]
pub struct WorldView {
    pub time: u64,
    pub next_entity: u64,
    pub bots: Map<u64, Bot>,
    pub spawn_bots: Map<u64, SpawnBotComponent>,
    pub decays: Map<u64, DecayComponent>,
    pub carries: Map<u64, CarryComponent>,
    pub structures: Map<u64, Structure>,
    pub hps: Map<u64, HpComponent>,
    pub energy_regens: Map<u64, EnergyRegenComponent>,
    pub energies: Map<u64, EnergyComponent>,
    pub positions: Map<u64, PositionComponent>,
    pub resources: Map<u64, ResourceComponent>,
    pub scripts: Map<u64, EntityScript>,
    pub spawns: Map<u64, SpawnComponent>,
    pub owners: Map<u64, OwnedEntity>,
    /// The lines logged, by entity and tick.
    pub logs: Map<(u64, u64), Seq<Seq<char>>>,
    pub users: Map<u64, UserComponent>,
    pub terrain: Map<Point, TerrainComponent>,
    pub entity_at: Map<Point, EntityComponent>,
    pub script_programs: Map<u64, ScriptComponent>,
}

impl WorldView {
    /// The world without the components of the entities `dead`.
    pub open spec fn without(self, dead: Set<u64>) -> WorldView {
        WorldView {
            bots: self.bots.remove_keys(dead),
            spawn_bots: self.spawn_bots.remove_keys(dead),
            decays: self.decays.remove_keys(dead),
            carries: self.carries.remove_keys(dead),
            structures: self.structures.remove_keys(dead),
            hps: self.hps.remove_keys(dead),
            energy_regens: self.energy_regens.remove_keys(dead),
            energies: self.energies.remove_keys(dead),
            positions: self.positions.remove_keys(dead),
            resources: self.resources.remove_keys(dead),
            scripts: self.scripts.remove_keys(dead),
            spawns: self.spawns.remove_keys(dead),
            owners: self.owners.remove_keys(dead),
            ..self
        }
    }
}

/// Entities that are to be removed from the world.
pub struct DeleteEntityView {
    pub ids: Vec<EntityId>,
}

impl DeleteEntityView {
    /// The ids of the entities, in the order they were named.
    pub open spec fn view(&self) -> Seq<u64> {
        Seq::new(self.ids@.len(), |i: int| self.ids@[i].0)
    }

    pub fn new() -> (v: Self)
        ensures
            v@ == Seq::<u64>::empty(),
    {
        let v = DeleteEntityView { ids: Vec::new() };
        assert(v@ =~= Seq::<u64>::empty());
        v
    }

    /// Name an entity for removal.
    pub fn delete_entity(&mut self, id: EntityId)
        ensures
            final(self)@ == old(self)@.push(id.0),
    {
        self.ids.push(id);
        assert(self@ =~= old(self)@.push(id.0));
    }
}

/// The world: every component table, the clock and the next free entity id.
pub struct Storage {
    pub time: u64,
    pub next_entity: u64,
    pub bots: BTreeTable<Bot>,
    pub spawn_bots: BTreeTable<SpawnBotComponent>,
    pub decays: BTreeTable<DecayComponent>,
    pub carries: BTreeTable<CarryComponent>,
    pub structures: BTreeTable<Structure>,
    pub hps: BTreeTable<HpComponent>,
    pub energy_regens: BTreeTable<EnergyRegenComponent>,
    pub energies: BTreeTable<EnergyComponent>,
    pub positions: BTreeTable<PositionComponent>,
    pub resources: BTreeTable<ResourceComponent>,
    pub scripts: BTreeTable<EntityScript>,
    pub spawns: BTreeTable<SpawnComponent>,
    pub owners: BTreeTable<OwnedEntity>,
    pub logs: LogTable,
    pub users: BTreeTable<UserComponent>,
    pub terrain: MortonTable<TerrainComponent>,
    pub entity_at: MortonTable<EntityComponent>,
    pub script_programs: BTreeTable<ScriptComponent>,
}

impl Storage {
    /// Every table is well formed.
    pub open spec fn wf(&self) -> bool {
        &&& self.bots.wf()
        &&& self.spawn_bots.wf()
        &&& self.decays.wf()
        &&& self.carries.wf()
        &&& self.structures.wf()
        &&& self.hps.wf()
        &&& self.energy_regens.wf()
        &&& self.energies.wf()
        &&& self.positions.wf()
        &&& self.resources.wf()
        &&& self.scripts.wf()
        &&& self.spawns.wf()
        &&& self.owners.wf()
        &&& self.logs.wf()
        &&& self.users.wf()
        &&& self.terrain.wf()
        &&& self.entity_at.wf()
        &&& self.script_programs.wf()
    }

    pub open spec fn view(&self) -> WorldView {
        WorldView {
            time: self.time,
            next_entity: self.next_entity,
            bots: self.bots@,
            spawn_bots: self.spawn_bots@,
            decays: self.decays@,
            carries: self.carries@,
            structures: self.structures@,
            hps: self.hps@,
            energy_regens: self.energy_regens@,
            energies: self.energies@,
            positions: self.positions@,
            resources: self.resources@,
            scripts: self.scripts@,
            spawns: self.spawns@,
            owners: self.owners@,
            logs: self.logs@,
            users: self.users@,
            terrain: self.terrain@,
            entity_at: self.entity_at@,
            script_programs: self.script_programs@,
        }
    }

    /// No table holds anything.
    pub open spec fn is_empty(&self) -> bool {
        &&& self.bots@ == Map::<u64, Bot>::empty()
        &&& self.spawn_bots@ == Map::<u64, SpawnBotComponent>::empty()
        &&& self.decays@ == Map::<u64, DecayComponent>::empty()
        &&& self.carries@ == Map::<u64, CarryComponent>::empty()
        &&& self.structures@ == Map::<u64, Structure>::empty()
        &&& self.hps@ == Map::<u64, HpComponent>::empty()
        &&& self.energy_regens@ == Map::<u64, EnergyRegenComponent>::empty()
        &&& self.energies@ == Map::<u64, EnergyComponent>::empty()
        &&& self.positions@ == Map::<u64, PositionComponent>::empty()
        &&& self.resources@ == Map::<u64, ResourceComponent>::empty()
        &&& self.scripts@ == Map::<u64, EntityScript>::empty()
        &&& self.spawns@ == Map::<u64, SpawnComponent>::empty()
        &&& self.owners@ == Map::<u64, OwnedEntity>::empty()
        &&& forall|e: EntityId, t: u64| !self.logs.has(e, t)
        &&& self.users@ == Map::<u64, UserComponent>::empty()
        &&& self.terrain@ == Map::<crate::geometry::Point, TerrainComponent>::empty()
        &&& self.entity_at@ == Map::<crate::geometry::Point, EntityComponent>::empty()
        &&& self.script_programs@ == Map::<u64, ScriptComponent>::empty()
    }

    /// The entity has no component in any table keyed by entity, and the
    /// other tables are as in `before`.
    pub open spec fn is_without(&self, before: &Storage, id: EntityId) -> bool {
        &&& self.time == before.time
        &&& self.next_entity == before.next_entity
        &&& self.bots@ == before.bots@.remove(id.0)
        &&& self.spawn_bots@ == before.spawn_bots@.remove(id.0)
        &&& self.decays@ == before.decays@.remove(id.0)
        &&& self.carries@ == before.carries@.remove(id.0)
        &&& self.structures@ == before.structures@.remove(id.0)
        &&& self.hps@ == before.hps@.remove(id.0)
        &&& self.energy_regens@ == before.energy_regens@.remove(id.0)
        &&& self.energies@ == before.energies@.remove(id.0)
        &&& self.positions@ == before.positions@.remove(id.0)
        &&& self.resources@ == before.resources@.remove(id.0)
        &&& self.scripts@ == before.scripts@.remove(id.0)
        &&& self.spawns@ == before.spawns@.remove(id.0)
        &&& self.owners@ == before.owners@.remove(id.0)
        &&& self.logs == before.logs
        &&& self.users == before.users
        &&& self.terrain == before.terrain
        &&& self.entity_at == before.entity_at
        &&& self.script_programs == before.script_programs
    }

    /// A world without entities at tick 0.
    pub fn new() -> (s: Self)
        ensures
            s.wf(),
            s.is_empty(),
            s.time == 0,
            s.next_entity == 0,
    {
        Storage {
            time: 0,
            next_entity: 0,
            bots: BTreeTable::new(),
            spawn_bots: BTreeTable::new(),
            decays: BTreeTable::new(),
            carries: BTreeTable::new(),
            structures: BTreeTable::new(),
            hps: BTreeTable::new(),
            energy_regens: BTreeTable::new(),
            energies: BTreeTable::new(),
            positions: BTreeTable::new(),
            resources: BTreeTable::new(),
            scripts: BTreeTable::new(),
            spawns: BTreeTable::new(),
            owners: BTreeTable::new(),
            logs: LogTable::new(),
            users: BTreeTable::new(),
            terrain: MortonTable::new(),
            entity_at: MortonTable::new(),
            script_programs: BTreeTable::new(),
        }
    }

    /// The current tick.
    pub fn time(&self) -> (t: u64)
        ensures
            t == self.time,
    {
        self.time
    }

    /// Hand out the next entity id. Ids ascend and none is handed out twice.
    pub fn insert_entity(&mut self) -> (id: EntityId)
        requires
            old(self).next_entity < u64::MAX,
        ensures
            id.0 == old(self).next_entity,
            final(self).next_entity == old(self).next_entity + 1,
            *final(self) == (Storage { next_entity: final(self).next_entity, ..*old(self) }),
    {
        let id = EntityId(self.next_entity);
        self.next_entity = self.next_entity + 1;
        id
    }

    /// Remove the entities that `view` names from every table that is keyed by entity.
    pub fn delete_all(&mut self, view: &DeleteEntityView)
        requires
            old(self).wf(),
        ensures
            final(self).wf(),
            final(self)@ == old(self)@.without(view@.to_set()),
    {
        let ghost w = self@;
        let n: usize = view.ids.len();
        let mut i: usize = 0;
        proof {
            assert(view@.take(0).to_set() =~= Set::<u64>::empty());
            assert(w.without(Set::<u64>::empty()) =~= w);
        }
        while i < n
            invariant
                self.wf(),
                n == view@.len(),
                n == view.ids@.len(),
                i <= n,
                self@ == w.without(view@.take(i as int).to_set()),
            decreases n - i,
        {
            let id: EntityId = view.ids[i];
            let ghost before = self@;
            self.delete_entity(id);
            proof {
                let s = view@.take(i as int).to_set();
                assert(view@.take(i as int + 1) =~= view@.take(i as int).push(id.0));
                view@.take(i as int).lemma_push_to_set_commute(id.0);
                assert(view@.take(i as int + 1).to_set() =~= s.insert(id.0));
                assert(w.without(s).without(set![id.0]) =~= w.without(s.insert(id.0)));
                assert(self@ =~= w.without(s.insert(id.0)));
            }
            i += 1;
        }
        proof {
            assert(view@.take(n as int) =~= view@);
        }
    }

    /// Remove the entity from every table that is keyed by entity.
    pub fn delete_entity(&mut self, id: EntityId)
        requires
            old(self).wf(),
        ensures
            final(self).wf(),
            final(self).is_without(old(self), id),
            final(self)@ == old(self)@.without(set![id.0]),
    {
        proof {
            let w = self@;
            let d = set![id.0];
            assert(w.bots.remove_keys(d) =~= w.bots.remove(id.0));
            assert(w.spawn_bots.remove_keys(d) =~= w.spawn_bots.remove(id.0));
            assert(w.decays.remove_keys(d) =~= w.decays.remove(id.0));
            assert(w.carries.remove_keys(d) =~= w.carries.remove(id.0));
            assert(w.structures.remove_keys(d) =~= w.structures.remove(id.0));
            assert(w.hps.remove_keys(d) =~= w.hps.remove(id.0));
            assert(w.energy_regens.remove_keys(d) =~= w.energy_regens.remove(id.0));
            assert(w.energies.remove_keys(d) =~= w.energies.remove(id.0));
            assert(w.positions.remove_keys(d) =~= w.positions.remove(id.0));
            assert(w.resources.remove_keys(d) =~= w.resources.remove(id.0));
            assert(w.scripts.remove_keys(d) =~= w.scripts.remove(id.0));
            assert(w.spawns.remove_keys(d) =~= w.spawns.remove(id.0));
            assert(w.owners.remove_keys(d) =~= w.owners.remove(id.0));
        }
        self.bots.remove(id.0);
        self.spawn_bots.remove(id.0);
        self.decays.remove(id.0);
        self.carries.remove(id.0);
        self.structures.remove(id.0);
        self.hps.remove(id.0);
        self.energy_regens.remove(id.0);
        self.energies.remove(id.0);
        self.positions.remove(id.0);
        self.resources.remove(id.0);
        self.scripts.remove(id.0);
        self.spawns.remove(id.0);
        self.owners.remove(id.0);
    }
}

} // verus!
