use cubesnake::area::Condition;
use cubesnake::path::{Area, Brick, Chain, Form, Orientation, Path, Position};
use cubesnake::search::{State, FILL_CAP, FRONTIER_CAP};
use cubesnake::tree::Node;
use std::rc::Rc;

#[test]
fn test_path() {
    // build area
    let mut area = Area::new();
    area.conditions
        .push(Condition::at_least(Position::new(0, 0, 0)));
    area.conditions
        .push(Condition::at_most(Position::new(2, 1, 1)));

    // build snake
    let mut chain = Chain::new();
    chain.add(Form::Straight);
    chain.add(Form::Straight);
    chain.add(Form::Turn);
    chain.add(Form::Turn);
    chain.add(Form::Straight);
    chain.add(Form::Turn);
    chain.add(Form::Turn);
    chain.add(Form::Straight);
    chain.add(Form::Turn);
    chain.add(Form::Turn);
    chain.add(Form::Straight);
    chain.add(Form::Straight);
    assert_eq!(12, chain.len());

    // init Path
    let mut path = Path::new(area, chain);
    // add first brick
    let root_brick = Brick::new(Position::new(0, 0, 0), Orientation::North, Form::Straight);
    path.add_brick(&root_brick);
    println!("==================");
    path.fold();
    println!("==================");
}

#[test]
fn test_cubesnake_small() {
    // build area
    let mut area = Area::new();
    area.conditions
        .push(Condition::at_least(Position::new(0, 0, 0)));
    area.conditions
        .push(Condition::at_most(Position::new(2, 2, 2)));

    // build snake
    let mut chain = Chain::new();
    chain.add(Form::Straight);
    chain.add(Form::Straight);
    chain.add(Form::Turn);
    chain.add(Form::Straight);
    chain.add(Form::Turn);
    chain.add(Form::Straight);
    chain.add(Form::Turn);
    chain.add(Form::Straight);
    chain.add(Form::Turn);
    chain.add(Form::Turn);
    chain.add(Form::Turn);
    chain.add(Form::Turn);
    chain.add(Form::Straight);
    chain.add(Form::Turn);
    chain.add(Form::Straight);
    chain.add(Form::Turn);
    chain.add(Form::Turn);
    chain.add(Form::Turn);
    chain.add(Form::Straight);
    chain.add(Form::Turn);
    chain.add(Form::Turn);
    chain.add(Form::Straight);
    chain.add(Form::Turn);
    chain.add(Form::Turn);
    chain.add(Form::Turn);
    chain.add(Form::Straight);
    chain.add(Form::Straight);
    assert_eq!(27, chain.len());

    // init Path
    let mut path = Path::new(area, chain);

    // add first bricks
    path.add_brick(&Brick::new(
        Position::new(2, 2, 2),
        Orientation::South,
        Form::Straight,
    ));
    path.add_brick(&Brick::new(
        Position::new(1, 2, 2),
        Orientation::South,
        Form::Straight,
    ));
    path.add_brick(&Brick::new(
        Position::new(0, 2, 2),
        Orientation::Down,
        Form::Turn,
    ));

    println!("==================");
    assert_eq!(1, path.fold());
    println!("==================");
    println!("statistics");
    for tt in path.statistics {
        println!("{}\t{}", tt.0, tt.1)
    }
}

fn cube(side: i8) -> Area {
    let mut area = Area::new();
    area.conditions.push(Condition::cube(side));
    area
}

fn chain_of(letters: &str) -> Chain {
    let mut chain = Chain::new();
    for letter in letters.chars() {
        chain.add(if letter == 'S' {
            Form::Straight
        } else {
            Form::Turn
        });
    }
    chain
}

fn lineage(leaf: &Rc<Node<Brick>>) -> Vec<Brick> {
    Node::values(leaf)
}

fn root(x: i8, y: i8, z: i8, orientation: Orientation) -> Rc<Node<Brick>> {
    Node::new_root(Brick::new(Position::new(x, y, z), orientation, Form::Straight))
}

// The small box, folded twice.
#[test]
fn small_box_folds_the_same_way_twice() {
    let mut counts = Vec::new();
    let mut logs = Vec::new();
    for _ in 0..2 {
        let mut area = Area::new();
        area.conditions
            .push(Condition::at_least(Position::new(0, 0, 0)));
        area.conditions
            .push(Condition::at_most(Position::new(2, 1, 1)));
        let mut path = Path::new(area, chain_of("SSTTSTTSTTSS"));
        path.add_brick(&Brick::new(
            Position::new(0, 0, 0),
            Orientation::North,
            Form::Straight,
        ));
        assert!(path.can_fold());
        let count = path.fold();
        assert!(count <= FRONTIER_CAP);
        assert!(!matches!(path.state(), State::Aborted(_)));
        assert!(!matches!(path.state(), State::Ready(_)));
        for entry in &path.statistics {
            assert!(entry.1 <= FRONTIER_CAP);
        }
        assert_eq!(count, path.statistics.last().unwrap().1);
        counts.push(count);
        logs.push(path.statistics);
    }
    assert_eq!(counts[0], counts[1]);
    assert_eq!(logs[0], logs[1]);
    // the box has twelve cells and the snake twelve segments: it fills the box
    assert_eq!(2, counts[0]);
    assert_eq!(
        logs[0],
        vec![
            (0, 1),
            (1, 1),
            (2, 4),
            (3, 8),
            (4, 4),
            (5, 8),
            (6, 8),
            (7, 4),
            (8, 8),
            (9, 8),
            (10, 2),
            (11, 2)
        ]
    );
}

// The one folding of the cube keeps the bricks laid by hand.
#[test]
fn folding_extends_the_bricks_laid_by_hand() {
    let letters = "SSTSTSTSTTTTSTSTTTSTTSTTTSS";
    let mut path = Path::new(cube(3), chain_of(letters));
    let prefix = [
        Brick::new(Position::new(2, 2, 2), Orientation::South, Form::Straight),
        Brick::new(Position::new(1, 2, 2), Orientation::South, Form::Straight),
        Brick::new(Position::new(0, 2, 2), Orientation::Down, Form::Turn),
    ];
    for brick in &prefix {
        path.add_brick(brick);
    }
    assert_eq!(State::Ready(3), path.state());
    assert_eq!(1, path.fold());
    assert_eq!(State::Exhausted(1), path.state());
    assert_eq!(27, path.last_layer_index);
    assert_eq!(27, path.statistics.len());

    let bricks = lineage(&path.last_layer[0]);
    assert_eq!(27, bricks.len());
    // root last
    assert_eq!(bricks[26], prefix[0]);
    assert_eq!(bricks[25], prefix[1]);
    assert_eq!(bricks[24], prefix[2]);
    // no cell twice, every cell in the cube, the forms spell the chain
    for i in 0..27 {
        for j in 0..i {
            assert_ne!(bricks[i].coordinates, bricks[j].coordinates);
        }
        assert!(path.area.is_in(bricks[i].coordinates));
        assert_eq!(Some(bricks[26 - i].form), path.chain.get(i));
    }
    // every brick follows the one before it
    for i in 0..26 {
        let prev = bricks[i + 1];
        let next = bricks[i];
        assert_eq!(next.coordinates, prev.coordinates + prev.orientation);
        if next.form == Form::Straight {
            assert_eq!(next, prev.next_straight());
        } else {
            assert!(prev.next_turn().contains(&next));
        }
    }
    // the log counts the layers from 0
    for (i, entry) in path.statistics.iter().enumerate() {
        assert_eq!(i, entry.0);
        assert!(entry.1 >= 1);
    }
}

#[test]
fn chain_without_links_keeps_the_seed() {
    let mut path = Path::new(cube(3), Chain::new());
    let seed = root(1, 1, 1, Orientation::Up);
    path.last_layer.push(Rc::clone(&seed));
    assert_eq!(State::Exhausted(1), path.state());
    assert_eq!(0, path.fold());
    assert_eq!(1, path.last_layer.len());
    assert!(Rc::ptr_eq(&seed, &path.last_layer[0]));
    assert!(path.statistics.is_empty());
    assert_eq!(0, path.last_layer_index);
    assert_eq!(State::Exhausted(1), path.state());
}

#[test]
fn used_up_chain_folds_no_further() {
    let mut path = Path::new(cube(3), chain_of("S"));
    path.add_brick(&Brick::new(
        Position::new(0, 0, 0),
        Orientation::North,
        Form::Straight,
    ));
    assert_eq!(0, path.fold());
    assert_eq!(path.statistics, vec![(0, 1)]);
    assert_eq!(1, path.last_layer.len());
    assert_eq!(1, path.last_layer_index);
}

#[test]
fn region_without_cells_is_dead_at_the_first_layer() {
    // no seed at all
    let mut path = Path::new(cube(0), chain_of("SS"));
    assert_eq!(State::Ready(0), path.state());
    assert!(path.can_fold());
    assert_eq!(0, path.fold());
    assert_eq!(path.statistics, vec![(0, 0)]);
    assert!(path.last_layer.is_empty());
    assert_eq!(State::Dead(0), path.state());

    // a seed that the region does not hold
    let mut path = Path::new(cube(0), chain_of("STT"));
    path.last_layer.push(root(0, 0, 0, Orientation::North));
    assert_eq!(0, path.fold());
    assert_eq!(path.statistics, vec![(0, 0)]);
    assert!(path.last_layer.is_empty());
    assert_eq!(1, path.last_layer_index);
    assert_eq!(State::Dead(0), path.state());
}

#[test]
fn dead_end_truncates_the_log() {
    // three cells in a row, and a snake that has to turn
    let mut area = Area::new();
    area.conditions.push(Condition::new(
        Position::new(0, 0, 0),
        Position::new(2, 0, 0),
    ));
    let mut path = Path::new(area, chain_of("SSTSS"));
    path.add_brick(&Brick::new(
        Position::new(0, 0, 0),
        Orientation::North,
        Form::Straight,
    ));
    assert_eq!(0, path.fold());
    // the second brick is refused already: five segments are left for it
    // and the row has three cells
    assert_eq!(path.statistics, vec![(0, 1), (1, 0)]);
    assert_eq!(State::Dead(1), path.state());
    assert!(path.last_layer.is_empty());
    assert_eq!(2, path.last_layer_index);
}

#[test]
fn add_brick_stacks_on_the_first_leaf() {
    let mut path = Path::new(cube(3), chain_of("SS"));
    let first = Brick::new(Position::new(0, 0, 0), Orientation::Up, Form::Straight);
    let second = Brick::new(Position::new(0, 0, 1), Orientation::Up, Form::Straight);
    path.add_brick(&first);
    assert_eq!(lineage(&path.last_layer[0]), vec![first]);
    path.last_layer.push(root(2, 2, 2, Orientation::Down));
    path.add_brick(&second);
    assert_eq!(2, path.last_layer.len());
    assert_eq!(lineage(&path.last_layer[0]), vec![second, first]);
    assert_eq!(1, lineage(&path.last_layer[1]).len());
    assert_eq!(path.statistics, vec![(0, 1), (1, 1)]);
    assert_eq!(2, path.last_layer_index);
}

#[test]
fn self_intersect_walks_the_whole_lineage() {
    let a = root(0, 0, 0, Orientation::North);
    let b = Node::new_child(
        Brick::new(Position::new(1, 0, 0), Orientation::North, Form::Straight),
        &a,
    );
    let c = Node::new_child(
        Brick::new(Position::new(2, 0, 0), Orientation::East, Form::Turn),
        &b,
    );
    assert!(Path::self_intersect(Position::new(0, 0, 0), Rc::clone(&c)));
    assert!(Path::self_intersect(Position::new(1, 0, 0), Rc::clone(&c)));
    assert!(Path::self_intersect(Position::new(2, 0, 0), Rc::clone(&c)));
    assert!(!Path::self_intersect(Position::new(2, 1, 0), Rc::clone(&c)));
    assert!(!Path::self_intersect(Position::new(2, 0, 0), Rc::clone(&b)));
}

#[test]
fn valid_cells_are_in_the_region_and_unused() {
    let path = Path::new(cube(3), chain_of("SSS"));
    let a = root(0, 0, 0, Orientation::North);
    assert!(Path::valid(&path, Position::new(1, 0, 0), &a));
    assert!(!Path::valid(&path, Position::new(0, 0, 0), &a));
    assert!(!Path::valid(&path, Position::new(-1, 0, 0), &a));
    assert!(!Path::valid(&path, Position::new(3, 0, 0), &a));
}

#[test]
fn split_area_counts_the_room_that_is_left() {
    // a row of five cells; the snake stands on the first
    let mut area = Area::new();
    area.conditions.push(Condition::new(
        Position::new(0, 0, 0),
        Position::new(4, 0, 0),
    ));
    let a = root(0, 0, 0, Orientation::North);
    // a brick on the second cell leaves itself and three more cells
    for (links, split) in [(4, false), (5, true), (6, true)] {
        let mut letters = String::new();
        for _ in 0..links {
            letters.push('S');
        }
        let path = Path::new(
            {
                let mut row = Area::new();
                row.conditions.push(area.conditions[0]);
                row
            },
            chain_of(&letters),
        );
        assert_eq!(split, Path::split_area(&path, Position::new(1, 0, 0), &a));
        assert_eq!(!split, Path::valid_nosplit(&path, Position::new(1, 0, 0), &a));
    }
}

#[test]
fn split_area_measures_from_the_first_free_neighbour() {
    // a row of five cells with a brick in the middle: two cells on either side
    let mut area = Area::new();
    area.conditions.push(Condition::new(
        Position::new(0, 0, 0),
        Position::new(4, 0, 0),
    ));
    let path = Path::new(area, chain_of("SS"));
    let mid = root(2, 0, 0, Orientation::North);
    // from the last cell, in the north, the cell itself is reached and
    // nothing else: room for two
    assert!(!Path::split_area(&path, Position::new(3, 0, 0), &mid));
    let mut tight = Area::new();
    tight.conditions.push(Condition::new(
        Position::new(0, 0, 0),
        Position::new(4, 0, 0),
    ));
    let longer = Path::new(tight, chain_of("SSS"));
    assert!(Path::split_area(&longer, Position::new(3, 0, 0), &mid));
}

#[test]
fn cell_without_free_neighbour_splits_nothing() {
    // one cell only
    let mut area = Area::new();
    area.conditions.push(Condition::new(
        Position::new(0, 0, 0),
        Position::new(0, 0, 0),
    ));
    let path = Path::new(area, chain_of("SSSSSSSS"));
    let elsewhere = root(5, 5, 5, Orientation::North);
    assert!(!Path::split_area(&path, Position::new(0, 0, 0), &elsewhere));
    assert!(Path::valid_nosplit(&path, Position::new(0, 0, 0), &elsewhere));
}

#[test]
fn flood_fill_stops_behind_the_cap() {
    // a row of 120 cells: there is room for more than 101, the fill counts 101
    let mut area = Area::new();
    area.conditions.push(Condition::new(
        Position::new(0, 0, 0),
        Position::new(119, 0, 0),
    ));
    let elsewhere = root(0, 5, 5, Orientation::North);
    for (links, split) in [(100, false), (101, false), (102, true), (110, true)] {
        let mut letters = String::new();
        for _ in 0..links {
            letters.push('S');
        }
        let mut row = Area::new();
        row.conditions.push(area.conditions[0]);
        let path = Path::new(row, chain_of(&letters));
        assert_eq!(FILL_CAP + 1, 101);
        assert_eq!(split, Path::split_area(&path, Position::new(0, 0, 0), &elsewhere));
    }
}

#[test]
fn flood_fill_finds_a_whole_region() {
    // a cube of side 4 has 64 cells
    let elsewhere = root(9, 9, 9, Orientation::North);
    for (links, split) in [(64, false), (65, true)] {
        let mut letters = String::new();
        for _ in 0..links {
            letters.push('T');
        }
        let path = Path::new(cube(4), chain_of(&letters));
        assert_eq!(split, Path::split_area(&path, Position::new(1, 2, 3), &elsewhere));
    }
}

#[test]
fn next_layer_keeps_the_order_of_leaves_and_candidates() {
    let mut path = Path::new(cube(3), chain_of("STSSSSSSS"));
    path.add_brick(&Brick::new(
        Position::new(0, 0, 0),
        Orientation::North,
        Form::Straight,
    ));
    assert_eq!(4, path.build_next_layer(Form::Turn));
    assert_eq!(2, path.last_layer_index);
    assert_eq!(path.statistics, vec![(0, 1)]);
    let directions: Vec<Orientation> = path
        .last_layer
        .iter()
        .map(|leaf| leaf.value.orientation)
        .collect();
    assert_eq!(
        directions,
        vec![
            Orientation::East,
            Orientation::West,
            Orientation::Up,
            Orientation::Down
        ]
    );
    for leaf in &path.last_layer {
        assert_eq!(leaf.value.coordinates, Position::new(1, 0, 0));
        assert_eq!(leaf.value.form, Form::Turn);
        assert_eq!(2, lineage(leaf).len());
    }
    // straight ahead only east and up stay in the cube
    assert_eq!(2, path.build_next_layer(Form::Straight));
    assert_eq!(
        path.last_layer[0].value,
        Brick::new(Position::new(1, 1, 0), Orientation::East, Form::Straight)
    );
    assert_eq!(
        path.last_layer[1].value,
        Brick::new(Position::new(1, 0, 1), Orientation::Up, Form::Straight)
    );
}

#[test]
fn fold_cannot_start_from_the_edge_of_the_grid() {
    let mut path = Path::new(cube(3), chain_of("SS"));
    path.last_layer.push(root(127, 0, 0, Orientation::North));
    assert!(!path.can_fold());
    let mut path = Path::new(cube(3), chain_of("SS"));
    path.last_layer.push(root(127, 0, 0, Orientation::South));
    assert!(path.can_fold());
    let mut path = Path::new(Area::new(), chain_of("SS"));
    path.last_layer.push(root(0, 0, 0, Orientation::South));
    assert!(!path.can_fold());
    // nothing left to fold: nothing to ask for
    let mut path = Path::new(Area::new(), Chain::new());
    path.last_layer.push(root(127, 0, 0, Orientation::North));
    assert!(path.can_fold());
}

#[test]
fn reports_of_a_small_search() {
    let mut path = Path::new(cube(3), chain_of("SST"));
    path.add_brick(&Brick::new(
        Position::new(0, 0, 0),
        Orientation::North,
        Form::Straight,
    ));
    assert_eq!(4, path.fold());
    assert_eq!(
        "statistics\nstep number_paths\n1\t1\n2\t1\n3\t4\n",
        path.solution_string_statistics()
    );
    assert_eq!(
        "coords   form orientation\n\
[2, 0, 0]  T  E\n[1, 0, 0]  S  N\n[0, 0, 0]  S  N\n------------------\n\
[2, 0, 0]  T  W\n[1, 0, 0]  S  N\n[0, 0, 0]  S  N\n------------------\n\
[2, 0, 0]  T  U\n[1, 0, 0]  S  N\n[0, 0, 0]  S  N\n------------------\n\
[2, 0, 0]  T  D\n[1, 0, 0]  S  N\n[0, 0, 0]  S  N\n------------------\n",
        path.solution_string_long()
    );
    assert_eq!(
        "orientation_switches\nE\nN\nW\nN\nU\nN\nD\nN\n",
        path.solution_string_short()
    );
}

#[test]
fn reports_of_an_empty_search() {
    let path = Path::new(Area::new(), Chain::new());
    assert_eq!("coords   form orientation\n", path.solution_string_long());
    assert_eq!("orientation_switches\n", path.solution_string_short());
    assert_eq!(
        "statistics\nstep number_paths\n",
        path.solution_string_statistics()
    );
}

#[test]
fn negative_coordinates_and_large_counts_in_reports() {
    let mut path = Path::new(Area::new(), Chain::new());
    path.last_layer.push(Node::new_root(Brick::new(
        Position::new(-128, 127, -5),
        Orientation::West,
        Form::Turn,
    )));
    path.statistics.push((9, 10000000));
    path.statistics.push((usize::MAX - 1, 0));
    assert_eq!(
        "coords   form orientation\n[-128, 127, -5]  T  W\n------------------\n",
        path.solution_string_long()
    );
    assert_eq!(
        format!(
            "statistics\nstep number_paths\n10\t10000000\n{}\t0\n",
            usize::MAX
        ),
        path.solution_string_statistics()
    );
}

#[test]
fn layer_by_layer_is_the_same_as_at_once() {
    let letters = "SSTTTSTTSTTT";
    let seed = Brick::new(Position::new(0, 0, 0), Orientation::North, Form::Straight);
    let mut at_once = Path::new(cube(3), chain_of(letters));
    at_once.add_brick(&seed);
    let count = at_once.fold();

    let mut by_layer = Path::new(cube(3), chain_of(letters));
    by_layer.add_brick(&seed);
    let mut last = 0;
    let mut layers = 0;
    while let State::Ready(layer) = by_layer.state() {
        assert_eq!(layer, by_layer.last_layer_index);
        assert!(by_layer.can_fold());
        last = by_layer.fold_layer();
        assert_eq!(last, by_layer.last_layer.len());
        assert_eq!(by_layer.statistics.last(), Some(&(layer, last)));
        layers += 1;
    }
    assert_eq!(11, layers);
    assert_eq!(count, last);
    assert_eq!(at_once.statistics, by_layer.statistics);
    assert_eq!(at_once.last_layer_index, by_layer.last_layer_index);
    let one: Vec<Vec<Brick>> = at_once.last_layer.iter().map(lineage).collect();
    let other: Vec<Vec<Brick>> = by_layer.last_layer.iter().map(lineage).collect();
    assert_eq!(one, other);
}

#[test]
fn frontier_beyond_the_cap_aborts_the_run() {
    // two cells in a row; every leaf stands on the first and steps on the second
    let mut area = Area::new();
    area.conditions.push(Condition::new(
        Position::new(0, 0, 0),
        Position::new(1, 0, 0),
    ));
    let mut path = Path::new(area, chain_of("SSS"));
    let leaf = root(0, 0, 0, Orientation::North);
    for _ in 0..FRONTIER_CAP + 1 {
        path.last_layer.push(Rc::clone(&leaf));
    }
    assert_eq!(State::Ready(0), path.state());
    // three segments are left, and no cell next to the second is free:
    // every leaf goes on
    let count = path.fold();
    assert_eq!(FRONTIER_CAP + 1, count);
    assert_eq!(State::Aborted(0), path.state());
    assert_eq!(path.statistics, vec![(0, FRONTIER_CAP + 1)]);
    assert_eq!(1, path.last_layer_index);
    // the run is over
    assert_eq!(0, path.fold());
    assert_eq!(State::Aborted(0), path.state());
    assert_eq!(1, path.statistics.len());
    // at the cap itself the search is ready
    path.last_layer.truncate(FRONTIER_CAP);
    assert_eq!(State::Ready(1), path.state());
}

#[test]
fn folding_twice_is_folding_once() {
    // exhausted
    let mut path = Path::new(cube(3), chain_of("SSTT"));
    path.add_brick(&Brick::new(
        Position::new(0, 0, 0),
        Orientation::North,
        Form::Straight,
    ));
    let count = path.fold();
    assert!(count > 0);
    let log = path.statistics.clone();
    let leaves: Vec<Vec<Brick>> = path.last_layer.iter().map(lineage).collect();
    assert_eq!(0, path.fold());
    assert_eq!(log, path.statistics);
    assert_eq!(4, path.last_layer_index);
    let again: Vec<Vec<Brick>> = path.last_layer.iter().map(lineage).collect();
    assert_eq!(leaves, again);

    // dead
    let mut path = Path::new(cube(0), chain_of("SSSS"));
    assert_eq!(0, path.fold());
    assert_eq!(State::Dead(0), path.state());
    assert!(path.can_fold());
    assert_eq!(0, path.fold());
    assert_eq!(State::Dead(0), path.state());
    assert_eq!(path.statistics, vec![(0, 0)]);
    assert_eq!(1, path.last_layer_index);
}
