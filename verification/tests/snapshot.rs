use caolo_sim::api::BotInfo;
use caolo_sim::geometry::{hexagon_of_radius, Point};
use caolo_sim::model::{
    Bot, EntityId, LogEntry, OwnedEntity, PositionComponent, Structure, TerrainComponent,
    TileTerrainType, UserId,
};
use caolo_sim::snapshot::{collect_bots, collect_log, collect_terrain, join_lines};
use caolo_sim::storage::Storage;
use caolo_sim::text::pos_to_string;

#[test]
fn the_hexagon_of_radius_zero_is_its_centre() {
    assert_eq!(hexagon_of_radius(0), vec![Point::new(0, 0)]);
}

#[test]
fn the_hexagon_of_radius_one() {
    assert_eq!(
        hexagon_of_radius(1),
        vec![
            Point::new(0, 1),
            Point::new(0, 2),
            Point::new(1, 0),
            Point::new(1, 1),
            Point::new(1, 2),
            Point::new(2, 0),
            Point::new(2, 1),
        ]
    );
}

#[test]
fn a_hexagon_holds_the_cells_within_its_radius() {
    for r in [2u16, 5, 11] {
        let points = hexagon_of_radius(r);
        let n = r as usize;
        assert_eq!(points.len(), 3 * n * (n + 1) + 1);
        let center = Point::new(r as i32, r as i32);
        for p in points.iter() {
            assert!(center.hex_distance(*p) <= r as u64);
            assert!(p.x >= 0 && p.y >= 0);
        }
        for w in points.windows(2) {
            assert!((w[0].x, w[0].y) < (w[1].x, w[1].y));
        }
    }
}

#[test]
fn a_cell_as_text() {
    assert_eq!(pos_to_string(Point::new(0, 0)), "0;0");
    assert_eq!(pos_to_string(Point::new(12, -7)), "12;-7");
    assert_eq!(pos_to_string(Point::new(i32::MIN, i32::MAX)), "-2147483648;2147483647");
}

#[test]
fn the_bots_with_a_position_are_collected_by_ascending_id() {
    let mut storage = Storage::new();
    storage.bots.insert(7, Bot {});
    storage.positions.insert(7, PositionComponent(Point::new(7, 0)));
    storage.bots.insert(2, Bot {});
    storage.positions.insert(2, PositionComponent(Point::new(2, 0)));
    storage.owners.insert(2, OwnedEntity { owner_id: UserId(1) });
    storage.bots.insert(3, Bot {});
    storage.structures.insert(4, Structure {});
    storage.positions.insert(4, PositionComponent(Point::new(4, 0)));
    assert_eq!(
        collect_bots(&storage),
        vec![
            BotInfo { id: 2, owner_id: Some(1), position: Point::new(2, 0), carry: 0, carry_max: 0 },
            BotInfo { id: 7, owner_id: None, position: Point::new(7, 0), carry: 0, carry_max: 0 },
        ]
    );
    assert_eq!(collect_bots(&Storage::new()), vec![]);
}

#[test]
fn the_terrain_that_is_not_empty_is_collected() {
    let mut storage = Storage::new();
    storage.terrain.insert(Point::new(1, 1), TerrainComponent(TileTerrainType::Wall));
    storage.terrain.insert(Point::new(0, 0), TerrainComponent(TileTerrainType::Empty));
    storage.terrain.insert(Point::new(1, 0), TerrainComponent(TileTerrainType::Wall));
    storage.terrain.insert(Point::new(0, 1), TerrainComponent(TileTerrainType::Empty));
    assert_eq!(
        collect_terrain(&storage),
        vec![(Point::new(1, 0), TileTerrainType::Wall), (Point::new(1, 1), TileTerrainType::Wall)]
    );
}

#[test]
fn the_lines_of_a_log_entry_are_joined_by_line_feeds() {
    let entry = |lines: &[&str]| LogEntry { payload: lines.iter().map(|l| l.to_string()).collect() };
    assert_eq!(join_lines(&entry(&[])), "");
    assert_eq!(join_lines(&entry(&["one"])), "one");
    assert_eq!(join_lines(&entry(&["one", "two", "", "four"])), "one\ntwo\n\nfour");
}

#[test]
fn the_log_of_a_tick_is_collected_by_ascending_entity() {
    let mut storage = Storage::new();
    storage.logs.push_line(EntityId(5), 2, "a".to_string());
    storage.logs.push_line(EntityId(1), 2, "b".to_string());
    storage.logs.push_line(EntityId(5), 2, "c".to_string());
    storage.logs.push_line(EntityId(5), 3, "d".to_string());
    assert_eq!(
        collect_log(&storage, 2),
        vec![(EntityId(1), "b".to_string()), (EntityId(5), "a\nc".to_string())]
    );
    assert_eq!(collect_log(&storage, 3), vec![(EntityId(5), "d".to_string())]);
    assert_eq!(collect_log(&storage, 4), vec![]);
}
