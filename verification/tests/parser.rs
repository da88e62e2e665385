use cubesnake::area::Condition;
use cubesnake::parser::Parser;
use cubesnake::search::State;
use cubesnake::snake::brick::{Brick, Orientation, Position};
use cubesnake::snake::chain::Form;
use cubesnake::tree::{Node, TreeIterator};
use std::rc::Rc;

fn lineage(leaf: &Rc<Node<Brick>>) -> Vec<Brick> {
    let mut bricks = Vec::new();
    let mut walk = TreeIterator::new(Rc::clone(leaf));
    while let Some(node) = walk.next() {
        bricks.push(node.value);
    }
    bricks
}

fn read(text: &str) -> Option<Parser> {
    Parser::try_new(&text.to_string())
}

#[test]
fn test_parser() {
    let input = "area cube 3
chain 27 SSTTTSTTSTTTSTSTTTTSTSTSTSS
path NE
start 0 0 0
".to_string();
    let mut parser = Parser::new(&input);
    assert_eq!(1, parser.path.fold());
    println!("XXXXXXXXXXXXXXXXXXXXXXXXXXXXX");
    println!("{}", parser.output());
}

#[test]
fn parser_seeds_the_bricks_of_the_path() {
    let input = "area cube 3
chain 27 SSTTTSTTSTTTSTSTTTTSTSTSTSS
path NE
start 0 0 0
".to_string();
    assert!(Parser::accepts(&input));
    let parser = Parser::new(&input);
    assert_eq!(parser.inputstring, input);
    assert_eq!(parser.path.area.conditions, vec![Condition::cube(3)]);
    assert_eq!(27, parser.path.chain.len());
    assert_eq!(Some(Form::Straight), parser.path.chain.get(0));
    assert_eq!(Some(Form::Turn), parser.path.chain.get(2));
    assert_eq!(Some(Form::Straight), parser.path.chain.get(26));
    // the first brick, one straight ahead, one turn to the east; the next
    // turn finds no direction left
    assert_eq!(1, parser.path.last_layer.len());
    assert_eq!(3, parser.path.last_layer_index);
    assert_eq!(parser.path.statistics, vec![(0, 1), (1, 1), (2, 1)]);
    assert_eq!(
        lineage(&parser.path.last_layer[0]),
        vec![
            Brick::new(Position::new(2, 0, 0), Orientation::East, Form::Turn),
            Brick::new(Position::new(1, 0, 0), Orientation::North, Form::Straight),
            Brick::new(Position::new(0, 0, 0), Orientation::North, Form::Straight),
        ]
    );
    assert_eq!(State::Ready(3), parser.path.state());
    assert!(parser.path.can_fold());
}

#[test]
fn folded_description_is_reported() {
    let input = "area cube 3\nchain 3 STS\npath NE\n".to_string();
    let mut parser = Parser::new(&input);
    // all three bricks are laid by hand: the straight link needs no direction
    assert_eq!(0, parser.path.fold());
    let expected = "area cube 3\nchain 3 STS\npath NE\n\
=========================\n\
coords   form orientation\n\
[1, 1, 0]  S  E\n\
[1, 0, 0]  T  E\n\
[0, 0, 0]  S  N\n\
------------------\n\
-------------------------\n\
orientation_switches\n\
E\n\
N\n\
-------------------------\n\
statistics\n\
step number_paths\n\
1\t1\n\
2\t1\n\
3\t1\n";
    assert_eq!(expected, parser.output());
}

#[test]
fn report_without_listing_for_ten_lineages() {
    let input = "chain 1 S\npath N\n".to_string();
    let mut parser = Parser::new(&input);
    let leaf = Rc::clone(&parser.path.last_layer[0]);
    for _ in 0..9 {
        parser.path.last_layer.push(Rc::clone(&leaf));
    }
    assert_eq!(10, parser.path.last_layer.len());
    assert_eq!(
        "chain 1 S\npath N\n=========================\nstatistics\nstep number_paths\n1\t1\n",
        parser.output()
    );
    parser.path.last_layer.pop();
    assert!(parser.output().contains("orientation_switches\n"));
}

#[test]
fn empty_description() {
    let parser = read("").unwrap();
    assert_eq!(0, parser.path.area.conditions.len());
    assert_eq!(0, parser.path.chain.len());
    assert_eq!(0, parser.path.last_layer.len());
    assert_eq!(0, parser.path.last_layer_index);
    assert!(parser.path.statistics.is_empty());
    assert_eq!(State::Exhausted(0), parser.path.state());
    assert_eq!(
        "=========================\ncoords   form orientation\n-------------------------\norientation_switches\n-------------------------\nstatistics\nstep number_paths\n",
        parser.output()
    );
}

#[test]
fn last_line_needs_no_line_feed() {
    let with = read("chain 2 SS\npath U\n").unwrap();
    let without = read("chain 2 SS\npath U").unwrap();
    assert_eq!(with.path.chain.dirs, without.path.chain.dirs);
    assert_eq!(
        lineage(&with.path.last_layer[0]),
        lineage(&without.path.last_layer[0])
    );
    assert_eq!(2, with.path.last_layer_index);
}

#[test]
fn carriage_returns_and_other_white_space_part_words() {
    let parser = read("  area\tcube   4\r\nchain 0\u{a0}TS\r\npath D\r\nstart\u{3000}1 2 3\r\n").unwrap();
    assert_eq!(parser.path.area.conditions, vec![Condition::cube(4)]);
    assert_eq!(parser.path.chain.dirs, vec![Form::Turn, Form::Straight]);
    assert_eq!(
        lineage(&parser.path.last_layer[0]),
        vec![
            Brick::new(Position::new(1, 2, 2), Orientation::Down, Form::Straight),
            Brick::new(Position::new(1, 2, 3), Orientation::Down, Form::Turn),
        ]
    );
}

#[test]
fn blank_line_cannot_be_read() {
    assert!(read("chain 1 S\n\npath N\n").is_none());
    assert!(read("   \n").is_none());
    assert!(read("\n").is_none());
    assert!(!Parser::accepts(&"chain 1 S\n\t\npath N\n".to_string()));
}

#[test]
fn unknown_lines_are_skipped() {
    let parser = read("# a snake\nsnake 1 2 3\nchain 1 S\npath W\nAREA cube 3\n").unwrap();
    assert_eq!(0, parser.path.area.conditions.len());
    assert_eq!(1, parser.path.chain.len());
    assert_eq!(
        lineage(&parser.path.last_layer[0]),
        vec![Brick::new(
            Position::new(0, 0, 0),
            Orientation::West,
            Form::Straight
        )]
    );
}

#[test]
fn area_lines() {
    // only cubes of side 3 and 4 are known
    assert_eq!(0, read("area ball 3\n").unwrap().path.area.conditions.len());
    assert_eq!(0, read("area ball\n").unwrap().path.area.conditions.len());
    assert_eq!(0, read("area ball x\n").unwrap().path.area.conditions.len());
    assert_eq!(0, read("area cube 5\n").unwrap().path.area.conditions.len());
    assert_eq!(0, read("area cube -3\n").unwrap().path.area.conditions.len());
    assert_eq!(0, read("area cube 2147483647\n").unwrap().path.area.conditions.len());
    assert_eq!(0, read("area cube -2147483648\n").unwrap().path.area.conditions.len());
    assert_eq!(
        read("area cube 3\narea cube +4 and more\n").unwrap().path.area.conditions,
        vec![Condition::cube(3), Condition::cube(4)]
    );
    assert_eq!(
        read("area cube 003\n").unwrap().path.area.conditions,
        vec![Condition::cube(3)]
    );
    // the side must be a number that fits 32 bits
    assert!(read("area\n").is_none());
    assert!(read("area cube\n").is_none());
    assert!(read("area cube three\n").is_none());
    assert!(read("area cube 3x\n").is_none());
    assert!(read("area cube 2147483648\n").is_none());
    assert!(read("area cube -2147483649\n").is_none());
    assert!(read("area cube 99999999999999999999999999\n").is_none());
    assert!(read("area cube -\n").is_none());
    assert!(read("area cube +\n").is_none());
    assert!(read("area cube --3\n").is_none());
}

#[test]
fn chain_lines() {
    assert!(read("chain\n").is_none());
    assert!(read("chain 3\n").is_none());
    // the count is not looked at, other letters are skipped, lines add up
    let parser = read("chain x S-T?s\nchain 0 tTt\npath N\n").unwrap();
    assert_eq!(
        parser.path.chain.dirs,
        vec![Form::Straight, Form::Turn, Form::Turn]
    );
}

#[test]
fn path_lines() {
    assert!(read("path\n").is_none());
    let parser = read("chain 8 SSTTTTTT\npath NxSEWUDn\nstart 10 10 10\n").unwrap();
    // seven bricks: six directions, and one straight ahead; the last turn
    // finds no direction left
    assert_eq!(7, parser.path.last_layer_index);
    let bricks = lineage(&parser.path.last_layer[0]);
    let directions: Vec<Orientation> = bricks.iter().rev().map(|b| b.orientation).collect();
    assert_eq!(
        directions,
        vec![
            Orientation::North,
            Orientation::North,
            Orientation::South,
            Orientation::East,
            Orientation::West,
            Orientation::Up,
            Orientation::Down,
        ]
    );
}

#[test]
fn start_lines() {
    assert!(read("start\n").is_none());
    assert!(read("start 1 2\n").is_none());
    assert!(read("start 1 2 z\n").is_none());
    assert!(read("start 1 128 3\n").is_none());
    assert!(read("start -129 2 3\n").is_none());
    assert!(read("start 1.0 2 3\n").is_none());
    let parser = read("start -128 +127 -0 rest\nchain 1 S\npath N\n").unwrap();
    assert_eq!(
        lineage(&parser.path.last_layer[0]),
        vec![Brick::new(
            Position::new(-128, 127, 0),
            Orientation::North,
            Form::Straight
        )]
    );
    // the last start line counts
    let parser = read("start 1 1 1\nchain 1 S\npath N\nstart 2 2 2\n").unwrap();
    assert_eq!(
        lineage(&parser.path.last_layer[0])[0].coordinates,
        Position::new(2, 2, 2)
    );
}

#[test]
fn bare_coordinates_override_start() {
    let parser = read("1 2 3\nchain 1 S\npath N\nstart 4 5 6\n").unwrap();
    assert_eq!(
        lineage(&parser.path.last_layer[0])[0].coordinates,
        Position::new(1, 2, 3)
    );
    // a line of numbers that are not three is skipped
    let parser = read("1 2\n7\n1 2 3 4\nchain 1 S\npath N\nstart 4 5 6\n").unwrap();
    assert_eq!(
        lineage(&parser.path.last_layer[0])[0].coordinates,
        Position::new(4, 5, 6)
    );
    // a line that begins with a number holds numbers only
    assert!(read("1 2 x\n").is_none());
    assert!(read("1 2 3 x\n").is_none());
    assert!(read("1 2 300\n").is_none());
    // 300 is no coordinate, so the line does not begin with a number
    assert!(read("300 2 x\n").is_some());
}

#[test]
fn first_brick_needs_a_direction() {
    assert!(read("chain 1 S\n").is_none());
    assert!(read("chain 1 S\npath xyz\n").is_none());
    // no link, no brick
    assert!(read("path\u{20}N\n").is_some());
    assert!(read("chain 0 xyz\n").is_some());
}

#[test]
fn bricks_laid_by_hand_stay_on_the_grid() {
    // the second brick would lie on x = 128
    assert!(read("chain 2 SS\npath N\nstart 127 0 0\n").is_none());
    assert!(read("chain 2 ST\npath NE\nstart 127 0 0\n").is_none());
    // the laying ends before the step is taken
    let parser = read("chain 2 ST\npath N\nstart 127 0 0\n").unwrap();
    assert_eq!(1, parser.path.last_layer_index);
    assert!(read("chain 2 SS\npath N\nstart 126 0 0\n").is_some());
    assert!(read("chain 2 SS\npath D\nstart 0 0 -128\n").is_none());
}

#[test]
fn straight_links_need_no_direction() {
    let parser = read("chain 4 SSSS\npath U\nstart 0 0 0\n").unwrap();
    assert_eq!(4, parser.path.last_layer_index);
    assert_eq!(
        parser.path.statistics,
        vec![(0, 1), (1, 1), (2, 1), (3, 1)]
    );
    assert_eq!(
        lineage(&parser.path.last_layer[0])[0],
        Brick::new(Position::new(0, 0, 3), Orientation::Up, Form::Straight)
    );
    assert_eq!(State::Exhausted(1), parser.path.state());
}
