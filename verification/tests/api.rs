use caolo_sim::api::{
    build_bot, console_log, log_scalar, make_point, move_bot, ApiFunction, BotInfo,
    ScriptExecutionData, ScriptMachine,
};
use caolo_sim::bytecode::{ByteEncodeProperties, Instruction, Value};
use caolo_sim::geometry::Point;
use caolo_sim::input_string::InputString;
use caolo_sim::intents::{Intent, MoveIntent};
use caolo_sim::model::{
    Bot, CarryComponent, EntityComponent, EntityId, OperationResult, OwnedEntity,
    PositionComponent, TerrainComponent, TileTerrainType, UserId,
};
use caolo_sim::schema::make_import;
use caolo_sim::storage::Storage;
use caolo_sim::vm::{ExecutionError, FloatUnit, VM};

struct Ieee;

impl FloatUnit for Ieee {
    fn binary(&self, op: Instruction, lhs: u64, rhs: u64) -> u64 {
        let a = f64::from_bits(lhs);
        let b = f64::from_bits(rhs);
        let r = match op {
            Instruction::AddFloat => a + b,
            Instruction::SubFloat => a - b,
            Instruction::MulFloat => a * b,
            _ => a / b,
        };
        r.to_bits()
    }
}

fn world() -> Storage {
    let mut storage = Storage::new();
    storage.time = 11;
    storage.bots.insert(5, Bot {});
    storage.positions.insert(5, PositionComponent(Point::new(5, 5)));
    storage.owners.insert(5, OwnedEntity { owner_id: UserId(9) });
    storage.entity_at.insert(Point::new(5, 5), EntityComponent(EntityId(5)));
    storage.terrain.insert(Point::new(4, 5), TerrainComponent(TileTerrainType::Wall));
    storage.terrain.insert(Point::new(6, 5), TerrainComponent(TileTerrainType::Empty));
    storage.bots.insert(6, Bot {});
    storage.positions.insert(6, PositionComponent(Point::new(5, 6)));
    storage.entity_at.insert(Point::new(5, 6), EntityComponent(EntityId(6)));
    storage
}

fn machine(storage: &Storage) -> ScriptMachine<'_> {
    VM::new(ScriptExecutionData::new(storage, EntityId(5), Some(UserId(9))))
}

fn log_line(intent: &Intent) -> (EntityId, String, u64) {
    match intent {
        Intent::Log(l) => (l.entity, l.payload.clone(), l.time),
        _ => panic!("not a log"),
    }
}

fn the_move(intent: &Intent) -> MoveIntent {
    match intent {
        Intent::Move(m) => *m,
        _ => panic!("not a move"),
    }
}

fn call(name: &str) -> Vec<u8> {
    let mut code = vec![Instruction::Call.opcode()];
    code.extend(InputString::from(name).unwrap().encode());
    code
}

fn lit_int(v: i64) -> Vec<u8> {
    let mut code = vec![Instruction::LiteralInt.opcode()];
    code.extend(v.encode());
    code
}

#[test]
fn console_log_proposes_a_log_line() {
    let storage = world();
    let mut vm = machine(&storage);
    vm.set_value_at(3, InputString::from("hello world").unwrap()).unwrap();
    assert_eq!(console_log(&mut vm, 3, 100), Ok(0));
    assert_eq!(vm.aux.intents.len(), 1);
    assert_eq!(
        log_line(&vm.aux.intents[0]),
        (EntityId(5), "Console log EntityId[EntityId(5)] : hello world".to_string(), 11)
    );
    assert_eq!(vm.memory.len(), 3 + 4 + 11);
    assert!(vm.stack.is_empty());
}

#[test]
fn console_log_without_a_string_is_an_invalid_argument() {
    let storage = world();
    let mut vm = machine(&storage);
    assert_eq!(console_log(&mut vm, 0, 0), Err(ExecutionError::InvalidArgument));
    assert_eq!(console_log(&mut vm, 7, 0), Err(ExecutionError::InvalidArgument));
    vm.set_value_at(0, 0x80u64).unwrap();
    vm.set_value_at(0, 1u32).unwrap();
    vm.set_value_at(4, 0xffu32).unwrap();
    assert_eq!(console_log(&mut vm, 0, 0), Err(ExecutionError::InvalidArgument));
    assert!(vm.aux.intents.is_empty());
}

#[test]
fn log_scalar_proposes_a_log_line() {
    let storage = world();
    let mut vm = machine(&storage);
    assert_eq!(log_scalar(&mut vm, Value::IValue(-42), 0), Ok(0));
    assert_eq!(log_scalar(&mut vm, Value::IValue(0), 0), Ok(0));
    assert_eq!(log_scalar(&mut vm, Value::IValue(i64::MIN), 0), Ok(0));
    assert_eq!(log_scalar(&mut vm, Value::FValue(1.0f64.to_bits()), 0), Ok(0));
    assert_eq!(log_scalar(&mut vm, Value::Pointer(2048), 0), Ok(0));
    let lines: Vec<String> = vm.aux.intents.iter().map(|i| log_line(i).1).collect();
    assert_eq!(
        lines,
        vec![
            "Entity [EntityId(5)] says IValue(-42)",
            "Entity [EntityId(5)] says IValue(0)",
            "Entity [EntityId(5)] says IValue(-9223372036854775808)",
            "Entity [EntityId(5)] says FValue(4607182418800017408)",
            "Entity [EntityId(5)] says Pointer(2048)",
        ]
    );
    for intent in vm.aux.intents.iter() {
        let (entity, _, time) = log_line(intent);
        assert_eq!(entity, EntityId(5));
        assert_eq!(time, 11);
    }
    assert!(vm.memory.is_empty());
}

#[test]
fn make_point_writes_the_point() {
    let storage = world();
    let mut vm = machine(&storage);
    assert_eq!(make_point(&mut vm, (Value::IValue(3), Value::IValue(-4)), 2), Ok(8));
    assert_eq!(vm.get_value::<Point>(2), Some(Point::new(3, -4)));
    assert_eq!(vm.memory, vec![0, 0, 3, 0, 0, 0, 252, 255, 255, 255]);
    assert!(vm.aux.intents.is_empty());
}

#[test]
fn make_point_refuses_what_is_no_pair_of_coordinates() {
    let storage = world();
    let mut vm = machine(&storage);
    for pair in [
        (Value::IValue(1), Value::FValue(2)),
        (Value::Pointer(1), Value::IValue(2)),
        (Value::IValue(1 << 31), Value::IValue(0)),
        (Value::IValue(0), Value::IValue(-(1 << 31) - 1)),
    ] {
        assert_eq!(make_point(&mut vm, pair, 0), Err(ExecutionError::InvalidArgument));
    }
    assert_eq!(
        make_point(&mut vm, (Value::IValue(1), Value::IValue(2)), 2041),
        Err(ExecutionError::MemoryOverflow)
    );
    assert!(vm.memory.is_empty());
    assert_eq!(
        make_point(&mut vm, (Value::IValue(i32::MAX as i64), Value::IValue(i32::MIN as i64)), 0),
        Ok(8)
    );
    assert_eq!(vm.get_value::<Point>(0), Some(Point::new(i32::MAX, i32::MIN)));
}

#[test]
fn move_bot_proposes_the_move_and_reports_nothing_when_it_is_in_order() {
    let storage = world();
    let mut vm = machine(&storage);
    vm.set_value_at(0, Point::new(6, 5)).unwrap();
    assert_eq!(move_bot(&mut vm, 0, 64), Ok(0));
    assert_eq!(vm.memory.len(), 8);
    assert_eq!(
        the_move(&vm.aux.intents[0]),
        MoveIntent { bot: EntityId(5), position: Point::new(6, 5), user: Some(UserId(9)) }
    );
}

#[test]
fn move_bot_reports_a_move_that_is_not_in_order_and_proposes_it_all_the_same() {
    let storage = world();
    let mut vm = machine(&storage);
    vm.set_value_at(0, Point::new(4, 5)).unwrap();
    assert_eq!(move_bot(&mut vm, 0, 64), Ok(4));
    assert_eq!(vm.get_value::<OperationResult>(64), Some(OperationResult::InvalidInput));
    assert_eq!(vm.aux.intents.len(), 1);
    assert_eq!(the_move(&vm.aux.intents[0]).position, Point::new(4, 5));

    let mut stranger: ScriptMachine =
        VM::new(ScriptExecutionData::new(&storage, EntityId(5), Some(UserId(1))));
    stranger.set_value_at(0, Point::new(6, 5)).unwrap();
    assert_eq!(move_bot(&mut stranger, 0, 8), Ok(4));
    assert_eq!(stranger.get_value::<OperationResult>(8), Some(OperationResult::NotOwner));
    assert_eq!(the_move(&stranger.aux.intents[0]).user, Some(UserId(1)));
}

#[test]
fn move_bot_without_a_point_or_without_room_for_the_report_fails() {
    let storage = world();
    let mut vm = machine(&storage);
    assert_eq!(move_bot(&mut vm, 0, 0), Err(ExecutionError::InvalidArgument));
    vm.set_value_at(0, Point::new(4, 5)).unwrap();
    assert_eq!(move_bot(&mut vm, 0, 2045), Err(ExecutionError::MemoryOverflow));
    assert!(vm.aux.intents.is_empty());
    assert_eq!(vm.memory.len(), 8);
}

#[test]
fn build_bot_describes_a_bot() {
    let mut storage = world();
    assert_eq!(
        build_bot(EntityId(5), &storage),
        Some(BotInfo {
            id: 5,
            owner_id: Some(9),
            position: Point::new(5, 5),
            carry: 0,
            carry_max: 0
        })
    );
    storage.carries.insert(6, CarryComponent { carry: 3, carry_max: 50 });
    assert_eq!(
        build_bot(EntityId(6), &storage),
        Some(BotInfo {
            id: 6,
            owner_id: None,
            position: Point::new(5, 6),
            carry: 3,
            carry_max: 50
        })
    );
    assert_eq!(build_bot(EntityId(7), &storage), None);
    storage.bots.insert(7, Bot {});
    assert_eq!(build_bot(EntityId(7), &storage), None);
    storage.positions.insert(8, PositionComponent(Point::new(1, 1)));
    assert_eq!(build_bot(EntityId(8), &storage), None);
}

#[test]
fn the_schema_lists_the_functions_of_the_game() {
    let schema = make_import();
    assert_eq!(
        schema.keys(),
        vec!["console_log", "log_scalar", "bots::move_bot", "make_point"]
    );
    let rows = schema.imports();
    assert_eq!(rows.len(), 4);
    assert_eq!(rows[0].description, "Log a string");
    assert_eq!(rows[0].inputs().as_slice(), &["String"]);
    assert_eq!(rows[0].output, "Void");
    assert_eq!(rows[0].fo, ApiFunction::ConsoleLog);
    assert_eq!(rows[1].description, "Log a scalar value");
    assert_eq!(rows[1].inputs().as_slice(), &["Scalar"]);
    assert_eq!(rows[1].fo, ApiFunction::LogScalar);
    assert_eq!(rows[2].description, "Move the bot to the given Point");
    assert_eq!(rows[2].inputs().as_slice(), &["Point"]);
    assert_eq!(rows[2].output, "OperationResult");
    assert_eq!(rows[2].fo, ApiFunction::MoveBot);
    assert_eq!(rows[3].description, "Create a point from x and y coordinates");
    assert_eq!(rows[3].inputs().as_slice(), &["Scalar", "Scalar"]);
    assert_eq!(rows[3].output, "Point");
    assert_eq!(rows[3].fo, ApiFunction::MakePoint);
}

#[test]
fn a_script_calls_the_functions_by_name() {
    let storage = world();
    let mut vm = machine(&storage);
    make_import().execute_imports(&mut vm);
    assert_eq!(vm.names.len(), 4);
    let mut code = lit_int(6);
    code.extend(lit_int(5));
    code.extend(call("make_point"));
    code.extend(call("bots::move_bot"));
    code.extend(lit_int(77));
    code.extend(call("log_scalar"));
    assert_eq!(vm.run(&code, &Ieee), Ok(()));
    assert_eq!(vm.aux.intents.len(), 2);
    assert_eq!(
        the_move(&vm.aux.intents[0]),
        MoveIntent { bot: EntityId(5), position: Point::new(6, 5), user: Some(UserId(9)) }
    );
    assert_eq!(log_line(&vm.aux.intents[1]).1, "Entity [EntityId(5)] says IValue(77)");
    assert!(vm.stack.is_empty());
    assert_eq!(vm.get_value::<Point>(18), Some(Point::new(6, 5)));
    assert_eq!(vm.memory.len(), 18 + 8 + 9 + 9);
}

#[test]
fn a_script_logs_a_string_that_the_host_has_put_into_the_memory() {
    let storage = world();
    let mut vm = machine(&storage);
    make_import().execute_imports(&mut vm);
    vm.set_value_at(0, InputString::from("one").unwrap()).unwrap();
    vm.set_value_at(7, InputString::from("two").unwrap()).unwrap();
    let mut code = vec![Instruction::LiteralPtr.opcode(), 0, 0, 0, 0];
    code.extend(call("console_log"));
    code.extend([Instruction::LiteralPtr.opcode(), 7, 0, 0, 0]);
    code.extend(call("console_log"));
    assert_eq!(vm.run(&code, &Ieee), Ok(()));
    let lines: Vec<String> = vm.aux.intents.iter().map(|i| log_line(i).1).collect();
    assert_eq!(
        lines,
        vec![
            "Console log EntityId[EntityId(5)] : one",
            "Console log EntityId[EntityId(5)] : two"
        ]
    );
}

#[test]
fn a_call_with_the_wrong_inputs_fails() {
    let storage = world();
    let mut vm = machine(&storage);
    make_import().execute_imports(&mut vm);
    assert_eq!(vm.run(&call("make_point"), &Ieee), Err(ExecutionError::StackUnderflow));
    let mut code = lit_int(1);
    code.extend(call("console_log"));
    assert_eq!(vm.run(&code, &Ieee), Err(ExecutionError::TypeMismatch));
    let mut code = lit_int(1);
    code.extend(call("bots::move_bot"));
    assert_eq!(vm.run(&code, &Ieee), Err(ExecutionError::TypeMismatch));
    assert_eq!(vm.run(&call("move_bot"), &Ieee), Err(ExecutionError::UnknownFunction));
    assert!(vm.aux.intents.is_empty());
}

#[test]
fn a_later_registration_replaces_an_earlier_one() {
    let storage = world();
    let mut vm = machine(&storage);
    vm.register_function_obj("f", ApiFunction::ConsoleLog);
    vm.register_function_obj("g", ApiFunction::MakePoint);
    vm.register_function_obj("f", ApiFunction::LogScalar);
    assert_eq!(vm.names.len(), 2);
    let mut code = lit_int(3);
    code.extend(call("f"));
    assert_eq!(vm.run(&code, &Ieee), Ok(()));
    assert_eq!(log_line(&vm.aux.intents[0]).1, "Entity [EntityId(5)] says IValue(3)");
}

#[test]
fn the_context_names_the_entity_and_the_world() {
    let storage = world();
    let data = ScriptExecutionData::new(&storage, EntityId(5), None);
    assert_eq!(data.entityid(), EntityId(5));
    assert_eq!(data.storage().time(), 11);
    assert_eq!(data.user_id, None);
    assert!(data.intents.is_empty());
}
