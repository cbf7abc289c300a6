use monte_carlo_cdt::triangles::Direction;
use monte_carlo_cdt::triangles::Universe;

#[test]
fn test_universe_lengths() {
    let timespan = 7;
    let budget = 72;

    let u0 = Universe::new(timespan, budget);
    assert_eq!(u0.lengths(), vec![budget / timespan; timespan]);
}

#[test]
fn test_moves01() {
    let mut universe = Universe::new(10, 100);

    // First check the flip move
    assert_eq!(universe.time_of(10), 20);
    universe.do_move(10, 1);
    assert_eq!(universe.time_of(10), 1);
    assert_eq!(universe.time_of(1), 10);
    assert_eq!(universe.time_of(11), 20);
    assert_eq!(universe.time_of(20), 11);

    // Then check the shard-move move
    universe.do_move(11, 1);
    assert_eq!(universe.time_of(11), 20);
    assert_eq!(universe.left_of(11), 1);
    assert_eq!(universe.right_of(11), 2);
    assert_eq!(universe.left_of(20), 10);
    assert_eq!(universe.right_of(20), 12);
    assert_eq!(universe.left_of(21), 29);
}

#[test]
fn test_moves02() {
    let mut universe = Universe::new(10, 100);

    // Check shard move to triangle with opposite orientation
    universe.do_move(10, 1);
    universe.do_move(11, 10);
    assert_eq!(universe.time_of(11), 20);
    assert_eq!(universe.left_of(11), 1);
    assert_eq!(universe.right_of(11), 2);
    assert_eq!(universe.left_of(20), 10);
    assert_eq!(universe.right_of(20), 12);
    assert_eq!(universe.left_of(21), 29);
}

#[test]
fn grid_construction_fields() {
    let universe = Universe::new(10, 100);
    assert_eq!(universe.triangle_count(), 100);
    assert_eq!(universe.direction_of(0), Direction::Up);
    assert_eq!(universe.direction_of(1), Direction::Down);
    // slice 0 starts with an up triangle whose timelike partner wraps around
    assert_eq!(universe.time_of(0), 90);
    assert_eq!(universe.left_of(0), 9);
    assert_eq!(universe.right_of(0), 1);
    // its down neighbour points one slice ahead
    assert_eq!(universe.time_of(1), 11);
}

#[test]
fn lengths_cover_every_slice() {
    let universe = Universe::new(5, 40);
    let lengths = universe.lengths();
    assert_eq!(lengths.len(), 5);
    let mut total = 0;
    for v in lengths.iter() {
        assert_eq!(*v, 8);
        total += *v;
    }
    assert_eq!(total, 40);
}
