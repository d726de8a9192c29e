use caolo_sim::geometry::Point;
use caolo_sim::model::{EntityComponent, EntityId, TerrainComponent, TileTerrainType};
use caolo_sim::morton_table::MortonTable;
use caolo_sim::pathfinding::{find_path, Node, PathFindingError};

#[test]
fn test_simple_wall() {
    let from = Point::new(0, 2);
    let to = Point::new(5, 2);

    let positions = MortonTable::new();
    let mut terrain = MortonTable::new();
    for i in 0..=5 {
        assert!(terrain.insert(Point::new(2, i), TerrainComponent(TileTerrainType::Wall)));
    }

    let mut path = vec![];
    find_path(from, to, &positions, &terrain, 512, &mut path).expect("Path finding failed");

    let mut current = from;
    for point in path.iter() {
        assert_eq!(point.hex_distance(current), 1);
        if point.x == 2 {
            assert!(point.y.abs() > 5, "{:?}", point);
        }
        current = *point;
    }
    assert_eq!(current, to);
}

#[test]
fn test_simple() {
    let from = Point::new(17, 6);
    let to = Point::new(7, 16);

    let mut positions = MortonTable::new();
    let terrain = MortonTable::new();

    positions.insert(from, EntityComponent(EntityId(0)));
    positions.insert(to, EntityComponent(EntityId(1)));

    let mut path = vec![];
    find_path(from, to, &positions, &terrain, 512, &mut path).expect("Path finding failed");

    let mut current = from;
    for point in path.iter() {
        assert_eq!(point.hex_distance(current), 1);
        if point.x == 2 {
            assert!(point.y.abs() > 5, "{:?}", point);
        }
        current = *point;
    }
    assert_eq!(current, to);
}

#[test]
fn a_closed_ring_of_walls_makes_the_goal_unreachable() {
    let from = Point::new(10, 10);
    let to = Point::new(15, 10);
    let positions = MortonTable::new();
    let mut terrain = MortonTable::new();
    for n in from.hex_neighbours().iter() {
        assert!(terrain.insert(*n, TerrainComponent(TileTerrainType::Wall)));
    }
    let mut path = vec![Point::new(1, 1)];
    let r = find_path(from, to, &positions, &terrain, 512, &mut path);
    assert_eq!(r, Err(PathFindingError::Unreachable));
    assert_eq!(path, vec![Point::new(1, 1)]);
}

#[test]
fn a_used_up_budget_gives_not_found() {
    let from = Point::new(10, 10);
    let to = Point::new(30, 10);
    let positions = MortonTable::new();
    let terrain = MortonTable::new();
    let mut path = vec![];
    assert_eq!(
        find_path(from, to, &positions, &terrain, 0, &mut path),
        Err(PathFindingError::NotFound)
    );
    assert_eq!(
        find_path(from, to, &positions, &terrain, 5, &mut path),
        Err(PathFindingError::NotFound)
    );
    assert!(path.is_empty());
    assert_eq!(find_path(from, to, &positions, &terrain, 21, &mut path), Ok(()));
    assert_eq!(path.len(), 20);
}

#[test]
fn the_path_to_the_start_is_empty() {
    let p = Point::new(3, 3);
    let positions = MortonTable::new();
    let terrain = MortonTable::new();
    let mut path = vec![Point::new(9, 9)];
    assert_eq!(find_path(p, p, &positions, &terrain, 0, &mut path), Ok(()));
    assert_eq!(path, vec![Point::new(9, 9)]);
}

#[test]
fn the_path_is_appended_in_order_and_is_shortest_on_open_ground() {
    let from = Point::new(2, 2);
    let to = Point::new(5, 2);
    let positions = MortonTable::new();
    let terrain = MortonTable::new();
    let mut path = vec![Point::new(0, 0)];
    assert_eq!(find_path(from, to, &positions, &terrain, 64, &mut path), Ok(()));
    assert_eq!(
        path,
        vec![Point::new(0, 0), Point::new(3, 2), Point::new(4, 2), Point::new(5, 2)]
    );
}

#[test]
fn occupied_cells_are_avoided_but_the_goal_may_be_occupied() {
    let from = Point::new(2, 2);
    let to = Point::new(4, 2);
    let mut positions = MortonTable::new();
    let terrain = MortonTable::new();
    assert!(positions.insert(Point::new(3, 2), EntityComponent(EntityId(7))));
    assert!(positions.insert(to, EntityComponent(EntityId(8))));
    let mut path = vec![];
    assert_eq!(find_path(from, to, &positions, &terrain, 64, &mut path), Ok(()));
    assert_eq!(path.len(), 3);
    assert!(!path.contains(&Point::new(3, 2)));
    assert_eq!(path[2], to);
    let mut current = from;
    for p in path.iter() {
        assert_eq!(current.hex_distance(*p), 1);
        current = *p;
    }
}

#[test]
fn the_path_stays_in_the_range_of_the_tables() {
    let from = Point::new(0, 0);
    let to = Point::new(0, 4);
    let positions = MortonTable::new();
    let mut terrain = MortonTable::new();
    assert!(terrain.insert(Point::new(0, 1), TerrainComponent(TileTerrainType::Wall)));
    let mut path = vec![];
    assert_eq!(find_path(from, to, &positions, &terrain, 64, &mut path), Ok(()));
    for p in path.iter() {
        assert!(p.x >= 0 && p.y >= 0);
    }
    assert_eq!(path.len(), 5);
    let outside = Point::new(-3, 0);
    let mut none = vec![];
    assert_eq!(
        find_path(from, outside, &positions, &terrain, 16, &mut none),
        Err(PathFindingError::NotFound)
    );
}

#[test]
fn node_cost_is_the_sum_of_both_parts() {
    let n = Node::new(Point::new(1, 2), Point::new(0, 2), 7, 5);
    assert_eq!(n.f(), 12);
    assert_eq!(n.pos, Point::new(1, 2));
    assert_eq!(n.parent, Point::new(0, 2));
    assert_eq!(n.h, 7);
    assert_eq!(n.g, 5);
}
