use caolo_sim::geometry::Point;

#[test]
fn hex_distance_follows_the_axial_formula() {
    assert_eq!(Point::new(0, 0).hex_distance(Point::new(3, -1)), 3);
    assert_eq!(Point::new(17, 6).hex_distance(Point::new(7, 16)), 10);
    assert_eq!(Point::new(0, 0).hex_distance(Point::new(127, 127)), 254);
    assert_eq!(Point::new(-2, 5).hex_distance(Point::new(-2, 5)), 0);
}

#[test]
fn hex_distance_is_symmetric() {
    let a = Point::new(-7, 12);
    let b = Point::new(30, -4);
    assert_eq!(a.hex_distance(b), b.hex_distance(a));
    assert_eq!(a.hex_distance(b), 37);
}

#[test]
fn hex_distance_of_far_corners_does_not_overflow() {
    let a = Point::new(i32::MIN, i32::MIN);
    let b = Point::new(i32::MAX, i32::MAX);
    assert_eq!(a.hex_distance(b), 2 * (u32::MAX as u64));
}

#[test]
fn neighbours_run_clockwise_from_east() {
    let p = Point::new(4, -3);
    let n = p.hex_neighbours();
    assert_eq!(
        n,
        [
            Point::new(5, -3),
            Point::new(4, -2),
            Point::new(3, -2),
            Point::new(3, -3),
            Point::new(4, -4),
            Point::new(5, -4),
        ]
    );
    for q in n.iter() {
        assert_eq!(p.hex_distance(*q), 1);
    }
    for i in 0..6 {
        assert_eq!(p.neighbour_at(i), Some(n[i]));
    }
}

#[test]
fn neighbours_beyond_the_coordinate_range_do_not_exist() {
    let p = Point::new(i32::MAX, i32::MIN);
    assert!(!p.can_step());
    assert_eq!(p.neighbour_at(0), None);
    assert_eq!(p.neighbour_at(1), Some(Point::new(i32::MAX, i32::MIN + 1)));
    assert_eq!(p.neighbour_at(4), None);
    assert_eq!(p.neighbour_at(3), Some(Point::new(i32::MAX - 1, i32::MIN)));
    assert!(Point::new(0, 0).can_step());
}
