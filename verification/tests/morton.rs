use caolo_sim::geometry::Point;
use caolo_sim::model::{EntityComponent, EntityId};
use caolo_sim::morton_key::MortonKey;
use caolo_sim::morton_table::MortonTable;
use rand::seq::SliceRandom;
use rand::Rng;
use rand::RngCore;
use std::collections::{HashMap, HashSet};

#[test]
fn insertions() {
    let mut tree = MortonTable::new();

    let r = tree.insert(Point::new(16, 32), 123i32);
    assert!(r);
}

#[test]
fn test_range_query_all() {
    let mut rng = rand::thread_rng();

    let mut tree = MortonTable::new();

    let mut seen = HashSet::new();
    let mut i = 0;
    while i < 256 {
        let p = Point {
            x: rng.gen_range(0..128),
            y: rng.gen_range(0..128),
        };
        if !seen.insert(p) {
            continue;
        }
        let inserted = tree.insert(p, i);
        assert!(inserted);
        i += 1;
    }

    let mut res = Vec::new();
    tree.find_by_range(&Point::default(), 256, &mut res);

    assert_eq!(res.len(), 256);
}

#[test]
fn get_by_id() {
    let mut rng = rand::thread_rng();

    let mut tree = MortonTable::<usize>::new();

    let mut points = HashMap::with_capacity(64);

    for i in 0..64 {
        let p = Point {
            x: rng.gen_range(0..128),
            y: rng.gen_range(0..128),
        };
        points.insert(p, i);
    }

    for (p, e) in points.iter() {
        let inserted = tree.insert(p.clone(), *e);
        assert!(inserted);
    }

    let mut points: Vec<_> = points.into_iter().collect();

    points.shuffle(&mut rng);

    for p in points {
        let found = tree.get_by_id(&p.0);
        assert_eq!(found, Some(&p.1));
    }
}

#[test]
fn from_iterator_inserts_correctly() {
    let mut rng = rand::thread_rng();

    let len = 1 << 12;
    let mut points = Vec::with_capacity(len);
    let mut seen = HashSet::new();
    while points.len() < len {
        let pos = Point {
            x: rng.gen_range(0..3900 * 2),
            y: rng.gen_range(0..3900 * 2),
        };
        if !seen.insert(pos) {
            continue;
        }
        let val = rng.next_u32();
        points.push((pos.clone(), val));
    }
    let tree = MortonTable::from_iterator(points.clone());

    for (pos, val) in points {
        let v = *tree.get_by_id(&pos).expect("to find the value");
        assert_eq!(val, v);
    }
}

#[test]
fn morton_key_reconstruction_rand() {
    let mut rng = rand::thread_rng();

    for _ in 0..(1 << 12) {
        let x = rng.gen_range(0..2000);
        let y = rng.gen_range(0..2000);

        let morton = MortonKey::new(x, y);

        let res = morton.as_point();

        assert_eq!([x, y], res);
    }
}

#[test]
fn morton_key_interleaves_the_bits() {
    assert_eq!(MortonKey::new(0, 0).0, 0);
    assert_eq!(MortonKey::new(1, 0).0, 1);
    assert_eq!(MortonKey::new(0, 1).0, 2);
    assert_eq!(MortonKey::new(3, 5).0, 39);
    assert_eq!(MortonKey::new(0xffff, 0).0, 0x5555_5555);
    assert_eq!(MortonKey::new(0, 0xffff).0, 0xaaaa_aaaa);
    assert_eq!(MortonKey::new(0xffff, 0xffff).as_point(), [0xffff, 0xffff]);
}

#[test]
fn insert_refuses_a_cell_that_is_held_and_keeps_the_old_row() {
    let mut table = MortonTable::new();
    assert!(table.insert(Point::new(3, 4), 1u8));
    assert!(!table.insert(Point::new(3, 4), 2u8));
    assert_eq!(table.get_by_id(&Point::new(3, 4)), Some(&1u8));
    assert_eq!(table.len(), 1);
}

#[test]
fn insert_refuses_cells_outside_the_16_bit_range() {
    let mut table = MortonTable::new();
    assert!(!table.insert(Point::new(-1, 0), 1u8));
    assert!(!table.insert(Point::new(0, -1), 1u8));
    assert!(!table.insert(Point::new(65536, 0), 1u8));
    assert!(!table.insert(Point::new(0, 65536), 1u8));
    assert!(table.insert(Point::new(65535, 65535), 1u8));
    assert!(table.insert(Point::new(0, 0), 2u8));
    assert_eq!(table.len(), 2);
    assert!(!table.contains_key(&Point::new(-1, 0)));
    assert_eq!(table.get_by_id(&Point::new(65536, 0)), None);
}

#[test]
fn insert_then_get_yields_the_row() {
    let mut table = MortonTable::new();
    for x in 0..20 {
        for y in 0..20 {
            assert!(table.insert(Point::new(x, y), x * 100 + y));
            assert_eq!(table.get_by_id(&Point::new(x, y)), Some(&(x * 100 + y)));
        }
    }
    for x in 0..20 {
        for y in 0..20 {
            assert_eq!(table.get_by_id(&Point::new(x, y)), Some(&(x * 100 + y)));
            assert!(table.contains_key(&Point::new(x, y)));
            assert!(table.intersects(&Point::new(x, y)));
        }
    }
    assert!(!table.contains_key(&Point::new(20, 0)));
    assert!(!table.intersects(&Point::new(20, 0)));
}

#[test]
fn bulk_build_keeps_the_first_row_of_a_cell() {
    let items = vec![
        (Point::new(9, 9), 'a'),
        (Point::new(1, 2), 'b'),
        (Point::new(9, 9), 'c'),
        (Point::new(-5, 2), 'd'),
        (Point::new(0, 0), 'e'),
    ];
    let table = MortonTable::from_iterator(items);
    assert_eq!(table.len(), 3);
    assert_eq!(table.get_by_id(&Point::new(9, 9)), Some(&'a'));
    assert_eq!(table.get_by_id(&Point::new(1, 2)), Some(&'b'));
    assert_eq!(table.get_by_id(&Point::new(0, 0)), Some(&'e'));
    assert_eq!(table.get_by_id(&Point::new(-5, 2)), None);
}

#[test]
fn iteration_runs_in_morton_order() {
    let table = MortonTable::from_iterator(vec![
        (Point::new(1, 1), 3u8),
        (Point::new(0, 1), 2u8),
        (Point::new(2, 0), 4u8),
        (Point::new(1, 0), 1u8),
        (Point::new(0, 0), 0u8),
    ]);
    let mut seen = Vec::new();
    for i in 0..table.len() {
        seen.push((table.point_at(i), *table.value_at(i)));
    }
    assert_eq!(
        seen,
        vec![
            (Point::new(0, 0), 0u8),
            (Point::new(1, 0), 1u8),
            (Point::new(0, 1), 2u8),
            (Point::new(1, 1), 3u8),
            (Point::new(2, 0), 4u8),
        ]
    );
}

#[test]
fn find_by_range_keeps_the_cells_within_the_radius() {
    let mut table = MortonTable::new();
    for x in 0..10 {
        for y in 0..10 {
            assert!(table.insert(Point::new(x, y), EntityComponent(EntityId((x * 10 + y) as u64))));
        }
    }
    let center = Point::new(5, 5);
    let mut out = Vec::new();
    table.find_by_range(&center, 1, &mut out);
    let mut found: Vec<Point> = out.iter().map(|(p, _)| *p).collect();
    found.sort_by_key(|p| (p.x, p.y));
    assert_eq!(
        found,
        vec![
            Point::new(4, 5),
            Point::new(4, 6),
            Point::new(5, 4),
            Point::new(5, 5),
            Point::new(5, 6),
            Point::new(6, 4),
            Point::new(6, 5),
        ]
    );
    for (p, e) in out.iter() {
        assert_eq!(**e, EntityComponent(EntityId((p.x * 10 + p.y) as u64)));
    }
    let mut more = Vec::new();
    table.find_by_range(&center, 0, &mut more);
    assert_eq!(more.len(), 1);
    table.find_by_range(&center, 2, &mut more);
    assert_eq!(more.len(), 1 + 19);
}

#[test]
fn clear_and_extend() {
    let mut table = MortonTable::new();
    assert!(table.insert(Point::new(1, 1), 1u8));
    table.clear();
    assert_eq!(table.len(), 0);
    assert!(!table.contains_key(&Point::new(1, 1)));
    table.extend(vec![(Point::new(2, 2), 2u8), (Point::new(1, 1), 3u8), (Point::new(2, 2), 4u8)]);
    assert_eq!(table.len(), 2);
    assert_eq!(table.get_by_id(&Point::new(2, 2)), Some(&2u8));
    assert_eq!(table.get_by_id(&Point::new(1, 1)), Some(&3u8));
}
