use caolo_sim::geometry::Point;
use caolo_sim::model::{
    Bot, CarryComponent, DecayComponent, EnergyComponent, EnergyRegenComponent, EntityComponent,
    EntityId, EntityScript, HpComponent, OwnedEntity, PositionComponent, Resource,
    ResourceComponent, ScriptId, SpawnBotComponent, SpawnComponent, Structure, UserId,
};
use caolo_sim::morton_table::MortonTable;
use caolo_sim::storage::{DeleteEntityView, Storage};
use caolo_sim::systems::{
    execute_world_update, rebuild_position_index, update_energy, update_spawn, update_spawns,
    DecaySystem,
};
use caolo_sim::tables::BTreeTable;

fn hp(hp: u16) -> HpComponent {
    HpComponent { hp, hp_max: 100 }
}

fn decay(t: u8, hp_amount: u16) -> DecayComponent {
    DecayComponent { hp_amount, eta: 9, t }
}

#[test]
fn decay_runs_the_timer_down_and_then_takes_hit_points() {
    let mut hps = BTreeTable::new();
    let mut decays = BTreeTable::new();
    hps.insert(1, hp(10));
    decays.insert(1, decay(2, 4));
    hps.insert(2, hp(10));
    decays.insert(2, decay(1, 4));
    hps.insert(3, hp(10));
    decays.insert(3, decay(0, 4));
    hps.insert(4, hp(3));
    decays.insert(4, decay(0, 5));
    hps.insert(5, hp(7));
    decays.insert(6, decay(4, 1));
    hps.insert(7, hp(0));
    decays.insert(7, decay(5, 1));
    let mut delete = DeleteEntityView::new();
    DecaySystem {}.update(&mut hps, &mut decays, &mut delete);
    assert_eq!(hps.get_by_id(1), Some(&hp(10)));
    assert_eq!(decays.get_by_id(1), Some(&decay(1, 4)));
    assert_eq!(hps.get_by_id(2), Some(&hp(6)));
    assert_eq!(decays.get_by_id(2), Some(&decay(0, 4)));
    assert_eq!(hps.get_by_id(3), Some(&hp(6)));
    assert_eq!(decays.get_by_id(3), Some(&decay(0, 4)));
    assert_eq!(hps.get_by_id(4), Some(&hp(0)));
    assert_eq!(hps.get_by_id(5), Some(&hp(7)));
    assert_eq!(decays.get_by_id(6), Some(&decay(4, 1)));
    assert_eq!(decays.get_by_id(7), Some(&decay(4, 1)));
    assert_eq!(delete.ids, vec![EntityId(4), EntityId(7)]);
}

#[test]
fn an_entity_that_is_deleted_leaves_every_table_keyed_by_entity() {
    let mut storage = Storage::new();
    for id in [1u64, 2] {
        storage.bots.insert(id, Bot {});
        storage.spawn_bots.insert(id, SpawnBotComponent { bot: Bot {} });
        storage.decays.insert(id, decay(1, 1));
        storage.carries.insert(id, CarryComponent { carry: 1, carry_max: 2 });
        storage.structures.insert(id, Structure {});
        storage.hps.insert(id, hp(1));
        storage.energy_regens.insert(id, EnergyRegenComponent { amount: 1 });
        storage.energies.insert(id, EnergyComponent { energy: 1, energy_max: 2 });
        storage.positions.insert(id, PositionComponent(Point::new(1, id as i32)));
        storage.resources.insert(id, ResourceComponent(Resource::Mineral));
        storage.scripts.insert(id, EntityScript { script_id: ScriptId(0) });
        storage.spawns.insert(id, SpawnComponent { time_to_spawn: 0, spawning: None });
        storage.owners.insert(id, OwnedEntity { owner_id: UserId(1) });
    }
    storage.delete_entity(EntityId(1));
    storage.delete_entity(EntityId(3));
    assert!(!storage.bots.contains_key(1));
    assert!(!storage.spawn_bots.contains_key(1));
    assert!(!storage.decays.contains_key(1));
    assert!(!storage.carries.contains_key(1));
    assert!(!storage.structures.contains_key(1));
    assert!(!storage.hps.contains_key(1));
    assert!(!storage.energy_regens.contains_key(1));
    assert!(!storage.energies.contains_key(1));
    assert!(!storage.positions.contains_key(1));
    assert!(!storage.resources.contains_key(1));
    assert!(!storage.scripts.contains_key(1));
    assert!(!storage.spawns.contains_key(1));
    assert!(!storage.owners.contains_key(1));
    assert!(storage.bots.contains_key(2));
    assert!(storage.owners.contains_key(2));
    assert_eq!(storage.positions.len(), 1);
    let mut both = DeleteEntityView::new();
    both.delete_entity(EntityId(2));
    both.delete_entity(EntityId(2));
    storage.delete_all(&both);
    assert!(storage.bots.is_empty());
    assert!(storage.hps.is_empty());
}

#[test]
fn energy_grows_by_the_amount_and_stops_at_the_most() {
    let mut energies = BTreeTable::new();
    let mut regens = BTreeTable::new();
    energies.insert(1, EnergyComponent { energy: 10, energy_max: 100 });
    regens.insert(1, EnergyRegenComponent { amount: 25 });
    energies.insert(2, EnergyComponent { energy: 90, energy_max: 100 });
    regens.insert(2, EnergyRegenComponent { amount: 25 });
    energies.insert(3, EnergyComponent { energy: 5, energy_max: 100 });
    regens.insert(4, EnergyRegenComponent { amount: 25 });
    energies.insert(5, EnergyComponent { energy: 65000, energy_max: 65535 });
    regens.insert(5, EnergyRegenComponent { amount: 65535 });
    energies.insert(6, EnergyComponent { energy: 75, energy_max: 100 });
    regens.insert(6, EnergyRegenComponent { amount: 25 });
    update_energy(&mut energies, &regens);
    assert_eq!(energies.get_by_id(1), Some(&EnergyComponent { energy: 35, energy_max: 100 }));
    assert_eq!(energies.get_by_id(2), Some(&EnergyComponent { energy: 100, energy_max: 100 }));
    assert_eq!(energies.get_by_id(3), Some(&EnergyComponent { energy: 5, energy_max: 100 }));
    assert_eq!(energies.get_by_id(4), None);
    assert_eq!(energies.get_by_id(5), Some(&EnergyComponent { energy: 65535, energy_max: 65535 }));
    assert_eq!(energies.get_by_id(6), Some(&EnergyComponent { energy: 100, energy_max: 100 }));
}

fn spawn_world(time_to_spawn: u8) -> Storage {
    let mut storage = Storage::new();
    storage.structures.insert(1, Structure {});
    storage.positions.insert(1, PositionComponent(Point::new(3, 3)));
    storage.owners.insert(1, OwnedEntity { owner_id: UserId(7) });
    storage.spawns.insert(1, SpawnComponent { time_to_spawn, spawning: Some(EntityId(2)) });
    storage.spawn_bots.insert(2, SpawnBotComponent { bot: Bot {} });
    storage
}

#[test]
fn a_spawn_counts_down_and_then_makes_the_bot() {
    let mut storage = spawn_world(3);
    update_spawns(&mut storage);
    assert_eq!(
        storage.spawns.get_by_id(1),
        Some(&SpawnComponent { time_to_spawn: 2, spawning: Some(EntityId(2)) })
    );
    assert!(!storage.bots.contains_key(2));
    update_spawn(&mut storage, 1);
    assert_eq!(
        storage.spawns.get_by_id(1),
        Some(&SpawnComponent { time_to_spawn: 1, spawning: Some(EntityId(2)) })
    );
    assert!(storage.spawn_bots.contains_key(2));
    update_spawns(&mut storage);
    assert_eq!(
        storage.spawns.get_by_id(1),
        Some(&SpawnComponent { time_to_spawn: 0, spawning: None })
    );
    assert!(storage.bots.contains_key(2));
    assert!(!storage.spawn_bots.contains_key(2));
    assert_eq!(storage.positions.get_by_id(2), Some(&PositionComponent(Point::new(3, 3))));
    assert_eq!(storage.owners.get_by_id(2), Some(&OwnedEntity { owner_id: UserId(7) }));
    update_spawns(&mut storage);
    assert_eq!(storage.bots.len(), 1);
}

#[test]
fn a_spawn_without_a_bot_in_the_making_only_stops() {
    let mut storage = spawn_world(0);
    storage.spawn_bots.remove(2);
    update_spawn(&mut storage, 1);
    update_spawn(&mut storage, 5);
    assert_eq!(
        storage.spawns.get_by_id(1),
        Some(&SpawnComponent { time_to_spawn: 0, spawning: None })
    );
    assert!(storage.bots.is_empty());
    assert_eq!(storage.positions.len(), 1);
    assert_eq!(storage.owners.len(), 1);
}

#[test]
fn the_position_index_is_built_from_the_positions() {
    let mut positions = BTreeTable::new();
    positions.insert(4, PositionComponent(Point::new(1, 1)));
    positions.insert(2, PositionComponent(Point::new(9, 0)));
    positions.insert(7, PositionComponent(Point::new(0, 65535)));
    let mut index = MortonTable::new();
    index.insert(Point::new(50, 50), EntityComponent(EntityId(99)));
    rebuild_position_index(&positions, &mut index);
    assert_eq!(index.len(), 3);
    for i in 0..positions.len() {
        let id = positions.key_at(i);
        let p = positions.value_at(i).0;
        assert_eq!(index.get_by_id(&p), Some(&EntityComponent(EntityId(id))));
    }
    for i in 0..index.len() {
        let p = index.point_at(i);
        let id = index.value_at(i).0;
        assert_eq!(positions.get_by_id(id.0), Some(&PositionComponent(p)));
    }
    assert!(!index.contains_key(&Point::new(50, 50)));
}

#[test]
fn the_position_index_holds_the_least_entity_of_a_cell_and_no_cell_out_of_range() {
    let mut positions = BTreeTable::new();
    positions.insert(9, PositionComponent(Point::new(1, 1)));
    positions.insert(3, PositionComponent(Point::new(1, 1)));
    positions.insert(5, PositionComponent(Point::new(-1, 1)));
    let mut index = MortonTable::new();
    rebuild_position_index(&positions, &mut index);
    assert_eq!(index.len(), 1);
    assert_eq!(index.get_by_id(&Point::new(1, 1)), Some(&EntityComponent(EntityId(3))));
}

#[test]
fn the_systems_run_in_their_order() {
    let mut storage = spawn_world(1);
    storage.hps.insert(1, hp(2));
    storage.decays.insert(1, decay(0, 2));
    storage.energies.insert(1, EnergyComponent { energy: 0, energy_max: 5 });
    storage.energy_regens.insert(1, EnergyRegenComponent { amount: 1 });
    storage.energies.insert(8, EnergyComponent { energy: 0, energy_max: 5 });
    storage.energy_regens.insert(8, EnergyRegenComponent { amount: 9 });
    storage.positions.insert(8, PositionComponent(Point::new(8, 8)));
    execute_world_update(&mut storage);
    assert!(!storage.spawns.contains_key(1));
    assert!(!storage.positions.contains_key(1));
    assert!(!storage.energies.contains_key(1));
    assert!(!storage.bots.contains_key(2));
    assert!(storage.spawn_bots.contains_key(2));
    assert_eq!(storage.energies.get_by_id(8), Some(&EnergyComponent { energy: 5, energy_max: 5 }));
    assert_eq!(storage.entity_at.len(), 1);
    assert_eq!(
        storage.entity_at.get_by_id(&Point::new(8, 8)),
        Some(&EntityComponent(EntityId(8)))
    );
}
