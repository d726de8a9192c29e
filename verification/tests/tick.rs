use caolo_sim::ast::{AstNode, CompilationUnit, Compiler};
use caolo_sim::bytecode::{Instruction, Value};
use caolo_sim::geometry::Point;
use caolo_sim::input_string::{InputList, InputString};
use caolo_sim::intents::Intent;
use caolo_sim::model::{
    Bot, DecayComponent, EntityComponent, EntityId, EntityScript, HpComponent, OwnedEntity,
    PositionComponent, ScriptComponent, ScriptId, UserId,
};
use caolo_sim::script_execution::execute_scripts;
use caolo_sim::storage::Storage;
use caolo_sim::text::i64_to_string;
use caolo_sim::vm::FloatUnit;
use caolo_sim::{apply_tick, forward, init_inmemory_storage, TickError};

struct Ieee;

impl FloatUnit for Ieee {
    fn binary(&self, op: Instruction, lhs: u64, rhs: u64) -> u64 {
        let a = f64::from_bits(lhs);
        let b = f64::from_bits(rhs);
        let r = match op {
            Instruction::AddFloat => a + b,
            Instruction::SubFloat => a - b,
            Instruction::MulFloat => a * b,
            _ => a / b,
        };
        r.to_bits()
    }
}

fn list(ids: &[i32]) -> InputList {
    let mut l = InputList::new();
    for id in ids {
        l.push(*id);
    }
    l
}

/// A script that steps to `(x, y)` and logs `x`.
fn walker(x: i64, y: i64) -> ScriptComponent {
    let mut unit = CompilationUnit::new();
    unit.nodes.insert(0, AstNode::new(Instruction::LiteralInt));
    unit.nodes.insert(1, AstNode::new(Instruction::LiteralInt));
    unit.nodes.insert(2, AstNode::new(Instruction::Call));
    unit.nodes.insert(3, AstNode::new(Instruction::Call));
    unit.nodes.insert(4, AstNode::new(Instruction::Call));
    unit.values.insert(0, Value::IValue(x));
    unit.values.insert(1, Value::IValue(y));
    unit.strings.insert(2, InputString::from("make_point").unwrap());
    unit.strings.insert(3, InputString::from("bots::move_bot").unwrap());
    unit.strings.insert(4, InputString::from("log_scalar").unwrap());
    unit.inputs.insert(2, list(&[0, 1]));
    unit.inputs.insert(3, list(&[2]));
    unit.inputs.insert(4, list(&[3, 0]));
    let mut programs = Compiler::compile(unit).unwrap();
    assert_eq!(programs.len(), 1);
    ScriptComponent(programs.remove(0))
}

fn add_bot(storage: &mut Storage, id: u64, at: Point, script: u64) {
    storage.bots.insert(id, Bot {});
    storage.positions.insert(id, PositionComponent(at));
    storage.owners.insert(id, OwnedEntity { owner_id: UserId(1) });
    storage.scripts.insert(id, EntityScript { script_id: ScriptId(script) });
    storage.entity_at.insert(at, EntityComponent(EntityId(id)));
}

#[test]
fn a_new_world_is_empty_at_tick_zero() {
    let storage = init_inmemory_storage();
    assert_eq!(storage.time(), 0);
    assert_eq!(storage.next_entity, 0);
    assert!(storage.bots.is_empty());
    assert!(storage.spawn_bots.is_empty());
    assert!(storage.decays.is_empty());
    assert!(storage.carries.is_empty());
    assert!(storage.structures.is_empty());
    assert!(storage.hps.is_empty());
    assert!(storage.energy_regens.is_empty());
    assert!(storage.energies.is_empty());
    assert!(storage.positions.is_empty());
    assert!(storage.resources.is_empty());
    assert!(storage.scripts.is_empty());
    assert!(storage.spawns.is_empty());
    assert!(storage.owners.is_empty());
    assert!(storage.users.is_empty());
    assert!(storage.script_programs.is_empty());
    assert_eq!(storage.terrain.len(), 0);
    assert_eq!(storage.entity_at.len(), 0);
    assert!(storage.logs.get_logs_by_time(0).is_none());
}

#[test]
fn entity_ids_ascend() {
    let mut storage = init_inmemory_storage();
    assert_eq!(storage.insert_entity(), EntityId(0));
    assert_eq!(storage.insert_entity(), EntityId(1));
    assert_eq!(storage.insert_entity(), EntityId(2));
    assert_eq!(storage.next_entity, 3);
}

#[test]
fn a_tick_advances_the_clock_by_one() {
    let mut storage = init_inmemory_storage();
    assert_eq!(forward(&mut storage, &Ieee), Ok(()));
    assert_eq!(storage.time(), 1);
    assert_eq!(forward(&mut storage, &Ieee), Ok(()));
    assert_eq!(storage.time(), 2);
}

#[test]
fn the_clock_does_not_run_over() {
    let mut storage = init_inmemory_storage();
    storage.time = u64::MAX;
    storage.hps.insert(1, HpComponent { hp: 1, hp_max: 1 });
    storage.decays.insert(1, DecayComponent { hp_amount: 1, eta: 0, t: 0 });
    assert_eq!(forward(&mut storage, &Ieee), Err(TickError::ClockOverflow));
    assert_eq!(storage.time(), u64::MAX);
    assert!(!storage.hps.contains_key(1));
}

#[test]
fn decay_kills_an_entity_within_one_tick() {
    let mut storage = init_inmemory_storage();
    add_bot(&mut storage, 1, Point::new(4, 4), 0);
    add_bot(&mut storage, 2, Point::new(6, 6), 0);
    storage.hps.insert(1, HpComponent { hp: 3, hp_max: 10 });
    storage.decays.insert(1, DecayComponent { hp_amount: 5, eta: 0, t: 0 });
    storage.hps.insert(2, HpComponent { hp: 30, hp_max: 30 });
    storage.decays.insert(2, DecayComponent { hp_amount: 5, eta: 0, t: 0 });
    assert_eq!(forward(&mut storage, &Ieee), Ok(()));
    assert!(!storage.bots.contains_key(1));
    assert!(!storage.hps.contains_key(1));
    assert!(!storage.decays.contains_key(1));
    assert!(!storage.positions.contains_key(1));
    assert!(!storage.owners.contains_key(1));
    assert!(!storage.scripts.contains_key(1));
    assert!(!storage.entity_at.contains_key(&Point::new(4, 4)));
    assert_eq!(storage.hps.get_by_id(2), Some(&HpComponent { hp: 25, hp_max: 30 }));
    assert_eq!(storage.entity_at.get_by_id(&Point::new(6, 6)), Some(&EntityComponent(EntityId(2))));
    assert_eq!(storage.entity_at.len(), 1);
}

#[test]
fn scripts_run_by_ascending_entity_and_propose_for_their_entity() {
    let mut storage = init_inmemory_storage();
    storage.time = 5;
    add_bot(&mut storage, 9, Point::new(10, 10), 1);
    add_bot(&mut storage, 3, Point::new(20, 20), 2);
    add_bot(&mut storage, 6, Point::new(30, 30), 77);
    storage.script_programs.insert(1, walker(11, 10));
    storage.script_programs.insert(2, walker(20, 21));
    let intents = execute_scripts(&storage, &Ieee);
    let seen: Vec<String> = intents
        .iter()
        .map(|i| match i {
            Intent::Move(m) => format!("move {} {} {}", m.bot.0, m.position.x, m.position.y),
            Intent::Log(l) => format!("log {} {} {}", l.entity.0, l.time, l.payload),
        })
        .collect();
    assert_eq!(
        seen,
        vec![
            "move 3 20 21",
            "log 3 5 Entity [EntityId(3)] says IValue(20)",
            "move 9 11 10",
            "log 9 5 Entity [EntityId(9)] says IValue(11)",
        ]
    );
}

#[test]
fn a_tick_runs_the_scripts_and_applies_what_they_propose() {
    let mut storage = init_inmemory_storage();
    add_bot(&mut storage, 1, Point::new(10, 10), 1);
    add_bot(&mut storage, 2, Point::new(12, 10), 1);
    storage.script_programs.insert(1, walker(11, 10));
    assert_eq!(forward(&mut storage, &Ieee), Ok(()));
    assert_eq!(storage.time(), 1);
    assert_eq!(storage.positions.get_by_id(1), Some(&PositionComponent(Point::new(11, 10))));
    assert_eq!(storage.positions.get_by_id(2), Some(&PositionComponent(Point::new(12, 10))));
    assert_eq!(
        storage.entity_at.get_by_id(&Point::new(11, 10)),
        Some(&EntityComponent(EntityId(1)))
    );
    assert_eq!(
        storage.entity_at.get_by_id(&Point::new(12, 10)),
        Some(&EntityComponent(EntityId(2)))
    );
    assert!(!storage.entity_at.contains_key(&Point::new(10, 10)));
    assert_eq!(storage.entity_at.len(), 2);
    let log = storage.logs.get_by_id(EntityId(1), 0).unwrap();
    assert_eq!(log.payload, vec!["Entity [EntityId(1)] says IValue(11)".to_string()]);
    let log = storage.logs.get_by_id(EntityId(2), 0).unwrap();
    assert_eq!(log.payload, vec!["Entity [EntityId(2)] says IValue(11)".to_string()]);
    assert_eq!(forward(&mut storage, &Ieee), Ok(()));
    assert_eq!(storage.positions.get_by_id(1), Some(&PositionComponent(Point::new(11, 10))));
    assert_eq!(storage.positions.get_by_id(2), Some(&PositionComponent(Point::new(12, 10))));
    assert!(storage.logs.get_by_id(EntityId(1), 1).is_some());
}

#[test]
fn the_stages_after_the_scripts_take_the_intents_as_they_are() {
    let mut storage = init_inmemory_storage();
    add_bot(&mut storage, 1, Point::new(10, 10), 1);
    let intents = vec![
        Intent::new_log(EntityId(1), "a".to_string(), 0),
        Intent::new_move(EntityId(1), Point::new(10, 11), Some(UserId(1))),
        Intent::new_log(EntityId(1), "b".to_string(), 0),
    ];
    assert_eq!(apply_tick(&mut storage, intents), Ok(()));
    assert_eq!(storage.time(), 1);
    assert_eq!(storage.positions.get_by_id(1), Some(&PositionComponent(Point::new(10, 11))));
    assert_eq!(
        storage.logs.get_by_id(EntityId(1), 0).unwrap().payload,
        vec!["a".to_string(), "b".to_string()]
    );
    assert_eq!(
        storage.entity_at.get_by_id(&Point::new(10, 11)),
        Some(&EntityComponent(EntityId(1)))
    );
}

#[test]
fn integers_as_text() {
    assert_eq!(i64_to_string(0), "0");
    assert_eq!(i64_to_string(7), "7");
    assert_eq!(i64_to_string(-7), "-7");
    assert_eq!(i64_to_string(1234567890), "1234567890");
    assert_eq!(i64_to_string(i64::MAX), "9223372036854775807");
    assert_eq!(i64_to_string(i64::MIN), "-9223372036854775808");
}
