use cubesnake::area::{Area, Condition, Position};

#[test]
fn test_area() {
    let mut area = Area::new();
    // x > 0
    area.conditions
        .push(Condition::at_least(Position::new(1, i8::MIN, i8::MIN)));
    // x < 3
    area.conditions
        .push(Condition::at_most(Position::new(2, i8::MAX, i8::MAX)));

    let a = Position::new(1, 2, 3);
    let b = Position::new(-1, 2, 3);
    let c = Position::new(3, 2, 3);
    assert!(area.is_in(a));
    assert!(!area.is_in(b));
    assert!(!area.is_in(c));
}

#[test]
fn area_without_conditions_holds_every_cell() {
    let area = Area::new();
    assert!(area.is_in(Position::new(0, 0, 0)));
    assert!(area.is_in(Position::new(i8::MIN, i8::MAX, -7)));
    assert!(!area.is_bounded());
}

#[test]
fn asking_twice_gives_the_same_answer() {
    let mut area = Area::new();
    area.conditions.push(Condition::cube(3));
    for x in -1..4 {
        for y in -1..4 {
            for z in -1..4 {
                let pos = Position::new(x, y, z);
                let first = area.is_in(pos);
                let second = area.is_in(pos);
                assert_eq!(first, second);
                let inside = 0 <= x && x < 3 && 0 <= y && y < 3 && 0 <= z && z < 3;
                assert_eq!(inside, first);
            }
        }
    }
}

#[test]
fn cube_of_side_three() {
    let cube = Condition::cube(3);
    assert_eq!(cube.lower, Position::new(0, 0, 0));
    assert_eq!(cube.upper, Position::new(2, 2, 2));
    assert!(cube.accepts(Position::new(0, 0, 0)));
    assert!(cube.accepts(Position::new(2, 2, 2)));
    assert!(!cube.accepts(Position::new(3, 0, 0)));
    assert!(!cube.accepts(Position::new(0, -1, 0)));
    assert!(!cube.accepts(Position::new(0, 0, 3)));
}

#[test]
fn cube_without_cells() {
    for side in [0i8, -1, i8::MIN] {
        let cube = Condition::cube(side);
        assert!(!cube.accepts(Position::new(0, 0, 0)));
        assert!(!cube.accepts(Position::new(side, side, side)));
        assert!(!cube.accepts(Position::new(-1, -1, -1)));
    }
}

#[test]
fn condition_between_two_corners() {
    let cond = Condition::new(Position::new(-1, 0, 1), Position::new(1, 0, 5));
    assert!(cond.accepts(Position::new(-1, 0, 1)));
    assert!(cond.accepts(Position::new(1, 0, 5)));
    assert!(!cond.accepts(Position::new(-2, 0, 1)));
    assert!(!cond.accepts(Position::new(0, 1, 1)));
    assert!(!cond.accepts(Position::new(0, 0, 6)));
}

#[test]
fn bounded_areas() {
    let mut area = Area::new();
    area.conditions.push(Condition::cube(3));
    assert!(area.is_bounded());

    // reaches the edge of the grid on the upper side
    let mut open = Area::new();
    open.conditions
        .push(Condition::at_least(Position::new(0, 0, 0)));
    assert!(!open.is_bounded());
    open.conditions
        .push(Condition::at_most(Position::new(126, 126, 126)));
    assert!(open.is_bounded());

    // reaches the edge on one axis only
    let mut edge = Area::new();
    edge.conditions.push(Condition::new(
        Position::new(0, 0, i8::MIN),
        Position::new(2, 2, 0),
    ));
    assert!(!edge.is_bounded());

    // an empty region is bounded
    let mut empty = Area::new();
    empty.conditions.push(Condition::new(
        Position::new(5, i8::MIN, i8::MIN),
        Position::new(4, i8::MAX, i8::MAX),
    ));
    assert!(empty.is_bounded());
    assert!(!empty.is_in(Position::new(4, 0, 0)));
}
