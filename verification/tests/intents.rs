use caolo_sim::geometry::Point;
use caolo_sim::intents::{check_move_intent, execute_intents, Intent, LogIntent, MoveIntent};
use caolo_sim::model::{
    Bot, EntityComponent, EntityId, OperationResult, OwnedEntity, PositionComponent,
    TerrainComponent, TileTerrainType, UserId,
};
use caolo_sim::storage::Storage;

fn add_bot(storage: &mut Storage, id: u64, at: Point, owner: u64) {
    storage.bots.insert(id, Bot {});
    storage.positions.insert(id, PositionComponent(at));
    storage.owners.insert(id, OwnedEntity { owner_id: UserId(owner) });
    storage.entity_at.insert(at, EntityComponent(EntityId(id)));
}

fn world() -> Storage {
    let mut storage = Storage::new();
    add_bot(&mut storage, 1, Point::new(5, 5), 9);
    add_bot(&mut storage, 2, Point::new(7, 5), 9);
    add_bot(&mut storage, 3, Point::new(20, 20), 4);
    storage.terrain.insert(Point::new(4, 5), TerrainComponent(TileTerrainType::Wall));
    storage.terrain.insert(Point::new(6, 5), TerrainComponent(TileTerrainType::Empty));
    storage
}

fn step(bot: u64, x: i32, y: i32, user: u64) -> MoveIntent {
    MoveIntent { bot: EntityId(bot), position: Point::new(x, y), user: Some(UserId(user)) }
}

fn lines(storage: &Storage, entity: u64, time: u64) -> Option<Vec<String>> {
    storage.logs.get_by_id(EntityId(entity), time).map(|e| e.payload.clone())
}

fn position(storage: &Storage, id: u64) -> Point {
    storage.positions.get_by_id(id).unwrap().0
}

#[test]
fn logs_of_one_entity_in_one_tick_accumulate_in_order() {
    let mut storage = world();
    let intents = vec![
        Intent::new_log(EntityId(1), "first".to_string(), 3),
        Intent::new_log(EntityId(2), "other".to_string(), 3),
        Intent::new_log(EntityId(1), "second".to_string(), 3),
        Intent::new_log(EntityId(1), "later".to_string(), 4),
    ];
    execute_intents(intents, &mut storage);
    assert_eq!(lines(&storage, 1, 3), Some(vec!["first".to_string(), "second".to_string()]));
    assert_eq!(lines(&storage, 2, 3), Some(vec!["other".to_string()]));
    assert_eq!(lines(&storage, 1, 4), Some(vec!["later".to_string()]));
    assert_eq!(lines(&storage, 2, 4), None);
    assert_eq!(lines(&storage, 3, 3), None);
    let at_three = storage.logs.get_logs_by_time(3).unwrap();
    assert_eq!(at_three.len(), 2);
    assert_eq!(at_three.key_at(0), 1);
    assert_eq!(at_three.key_at(1), 2);
    assert!(storage.logs.get_logs_by_time(5).is_none());
}

#[test]
fn a_log_intent_appends_its_line() {
    let mut storage = Storage::new();
    let a = LogIntent { entity: EntityId(8), payload: "a".to_string(), time: 0 };
    let b = LogIntent { entity: EntityId(8), payload: "b".to_string(), time: 0 };
    assert_eq!(a.execute(&mut storage), Ok(()));
    assert_eq!(b.execute(&mut storage), Ok(()));
    assert_eq!(a.execute(&mut storage), Ok(()));
    assert_eq!(
        lines(&storage, 8, 0),
        Some(vec!["a".to_string(), "b".to_string(), "a".to_string()])
    );
}

#[test]
fn a_move_is_checked_against_the_world() {
    let storage = world();
    assert_eq!(check_move_intent(&step(1, 6, 5, 9), &storage), OperationResult::Success);
    assert_eq!(check_move_intent(&step(1, 5, 4, 9), &storage), OperationResult::Success);
    assert_eq!(check_move_intent(&step(8, 6, 5, 9), &storage), OperationResult::InvalidInput);
    assert_eq!(check_move_intent(&step(1, 6, 5, 4), &storage), OperationResult::NotOwner);
    let nobody = MoveIntent { bot: EntityId(1), position: Point::new(6, 5), user: None };
    assert_eq!(check_move_intent(&nobody, &storage), OperationResult::NotOwner);
    assert_eq!(check_move_intent(&step(1, 7, 6, 9), &storage), OperationResult::InvalidInput);
    assert_eq!(check_move_intent(&step(1, 4, 5, 9), &storage), OperationResult::InvalidInput);
    assert_eq!(check_move_intent(&step(1, 5, 5, 9), &storage), OperationResult::InvalidInput);
    assert_eq!(check_move_intent(&step(2, 6, 5, 9), &storage), OperationResult::Success);
    let mut storage = storage;
    storage.bots.insert(4, Bot {});
    storage.positions.insert(4, PositionComponent(Point::new(0, 65535)));
    storage.owners.insert(4, OwnedEntity { owner_id: UserId(9) });
    assert_eq!(check_move_intent(&step(4, -1, 65535, 9), &storage), OperationResult::InvalidInput);
    assert_eq!(check_move_intent(&step(4, 0, 65536, 9), &storage), OperationResult::InvalidInput);
    assert_eq!(check_move_intent(&step(4, 1, 65535, 9), &storage), OperationResult::Success);
    storage.owners.remove(1);
    assert_eq!(check_move_intent(&step(1, 6, 5, 9), &storage), OperationResult::NotOwner);
    storage.positions.remove(2);
    assert_eq!(check_move_intent(&step(2, 6, 5, 9), &storage), OperationResult::InvalidInput);
}

#[test]
fn a_move_that_is_in_order_is_applied() {
    let mut storage = world();
    execute_intents(vec![Intent::Move(step(1, 6, 5, 9))], &mut storage);
    assert_eq!(position(&storage, 1), Point::new(6, 5));
    assert_eq!(position(&storage, 2), Point::new(7, 5));
    assert_eq!(position(&storage, 3), Point::new(20, 20));
}

#[test]
fn of_the_moves_of_one_bot_the_last_counts() {
    let mut storage = world();
    let intents = vec![
        Intent::Move(step(1, 6, 5, 9)),
        Intent::Move(step(3, 21, 20, 4)),
        Intent::Move(step(1, 5, 4, 9)),
    ];
    execute_intents(intents, &mut storage);
    assert_eq!(position(&storage, 1), Point::new(5, 4));
    assert_eq!(position(&storage, 3), Point::new(21, 20));

    let mut storage = world();
    let intents = vec![Intent::Move(step(1, 6, 5, 9)), Intent::Move(step(1, 4, 5, 9))];
    execute_intents(intents, &mut storage);
    assert_eq!(position(&storage, 1), Point::new(5, 5));
}

#[test]
fn moves_that_are_not_in_order_are_dropped() {
    let mut storage = world();
    let intents = vec![
        Intent::Move(step(1, 4, 5, 9)),
        Intent::Move(step(2, 9, 9, 9)),
        Intent::Move(step(3, 21, 20, 9)),
    ];
    execute_intents(intents, &mut storage);
    assert_eq!(position(&storage, 1), Point::new(5, 5));
    assert_eq!(position(&storage, 2), Point::new(7, 5));
    assert_eq!(position(&storage, 3), Point::new(20, 20));
}

#[test]
fn of_two_bots_that_step_onto_one_cell_the_first_gets_it() {
    let mut storage = world();
    let intents = vec![Intent::Move(step(2, 6, 5, 9)), Intent::Move(step(1, 6, 5, 9))];
    execute_intents(intents, &mut storage);
    assert_eq!(position(&storage, 2), Point::new(6, 5));
    assert_eq!(position(&storage, 1), Point::new(5, 5));
}

#[test]
fn a_move_intent_refuses_a_target_that_is_taken() {
    let mut storage = world();
    assert_eq!(step(1, 7, 5, 9).execute(&mut storage), Err(OperationResult::InvalidInput));
    assert_eq!(step(8, 1, 1, 9).execute(&mut storage), Err(OperationResult::InvalidInput));
    assert_eq!(position(&storage, 1), Point::new(5, 5));
    assert_eq!(step(1, 6, 5, 9).execute(&mut storage), Ok(()));
    assert_eq!(position(&storage, 1), Point::new(6, 5));
}

#[test]
fn logs_are_applied_before_moves_and_leave_them_alone() {
    let mut storage = world();
    let intents = vec![
        Intent::Move(step(1, 6, 5, 9)),
        Intent::new_log(EntityId(1), "moving".to_string(), 0),
        Intent::new_move(EntityId(2), Point::new(8, 5), Some(UserId(9))),
    ];
    execute_intents(intents, &mut storage);
    assert_eq!(position(&storage, 1), Point::new(6, 5));
    assert_eq!(position(&storage, 2), Point::new(8, 5));
    assert_eq!(lines(&storage, 1, 0), Some(vec!["moving".to_string()]));
    assert_eq!(storage.time(), 0);
    assert_eq!(storage.bots.len(), 3);
}
