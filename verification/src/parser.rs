//! Reads the description of a puzzle and seeds a search with it.
//!
//! A description is read line by line, and a line word by word. The first
//! word of a line says what the line holds:
//!
//! - `area cube <side>`: the region is the cube of that side at the origin.
//!   Sides 3 and 4 are known; a line with another shape or side is skipped.
//! - `chain <count> <forms>`: the links, `S` for straight and `T` for a turn.
//!   Other letters are skipped, and the count is not looked at.
//! - `path <directions>`: the directions of the bricks that are laid by
//!   hand, out of `N`, `S`, `E`, `W`, `U` and `D`. Other letters are skipped.
//! - `start <x> <y> <z>`: the cell of the first brick.
//! - a line whose first word is a number must hold numbers only; if it
//!   holds three, they are the cell of the first brick, whatever `start` says.
//!
//! Any other line is skipped, but no line may be blank.
use crate::area::{cube_of, Area, Condition, Position};
use crate::laws::{faithful, forms};
use crate::path::Path;
use crate::report::{long_report, short_report, statistics_report};
use crate::snake::brick::{Brick, Orientation};
use crate::snake::chain::{Chain, Form};
use crate::text::{
    chars_of, is_word, lines, number_within, parse_number, split_lines, split_words, views, words,
};
use vstd::pervasive::unreached;
use vstd::prelude::*;
use vstd::string::StringExecFns;

verus! {

/// What a description says.
pub struct Plan {
    /// The conditions of the region.
    pub conditions: Seq<Condition>,
    /// The links of the chain.
    pub chain: Seq<Form>,
    /// The directions of the bricks laid by hand.
    pub orientations: Seq<Orientation>,
    /// The cell of the first brick.
    pub start: Position,
}

/// The links that the letters of a word stand for.
pub open spec fn forms_in(word: Seq<char>) -> Seq<Form>
    decreases word.len(),
{
    if word.len() == 0 {
        Seq::empty()
    } else {
        let before = forms_in(word.drop_last());
        if word.last() == 'S' {
            before.push(Form::Straight)
        } else if word.last() == 'T' {
            before.push(Form::Turn)
        } else {
            before
        }
    }
}

/// The direction that a letter stands for.
pub open spec fn orientation_of(letter: char) -> Option<Orientation> {
    if letter == 'N' {
        Some(Orientation::North)
    } else if letter == 'S' {
        Some(Orientation::South)
    } else if letter == 'E' {
        Some(Orientation::East)
    } else if letter == 'W' {
        Some(Orientation::West)
    } else if letter == 'U' {
        Some(Orientation::Up)
    } else if letter == 'D' {
        Some(Orientation::Down)
    } else {
        None
    }
}

/// The directions that the letters of a word stand for.
pub open spec fn orientations_in(word: Seq<char>) -> Seq<Orientation>
    decreases word.len(),
{
    if word.len() == 0 {
        Seq::empty()
    } else {
        let before = orientations_in(word.drop_last());
        match orientation_of(word.last()) {
            Some(orientation) => before.push(orientation),
            None => before,
        }
    }
}

/// The coordinate that a word spells, if it spells one.
pub open spec fn coordinate(word: Seq<char>) -> Option<int> {
    number_within(word, i8::MIN as int, i8::MAX as int)
}

/// The plan after a line with the given words has been read; `None` if
/// the line cannot be read.
pub open spec fn read_line(line: Seq<Seq<char>>, plan: Plan) -> Option<Plan> {
    if line.len() == 0 {
        None
    } else if line[0] == "area"@ {
        if line.len() < 2 {
            None
        } else if line[1] != "cube"@ {
            Some(plan)
        } else if line.len() < 3 {
            None
        } else {
            match number_within(line[2], i32::MIN as int, i32::MAX as int) {
                None => None,
                Some(side) => if side == 3 || side == 4 {
                    Some(Plan { conditions: plan.conditions.push(cube_of(side as i8)), ..plan })
                } else {
                    Some(plan)
                },
            }
        }
    } else if line[0] == "chain"@ {
        if line.len() < 3 {
            None
        } else {
            Some(Plan { chain: plan.chain + forms_in(line[2]), ..plan })
        }
    } else if line[0] == "path"@ {
        if line.len() < 2 {
            None
        } else {
            Some(Plan { orientations: plan.orientations + orientations_in(line[1]), ..plan })
        }
    } else if line[0] == "start"@ {
        if line.len() < 4 {
            None
        } else {
            match (coordinate(line[1]), coordinate(line[2]), coordinate(line[3])) {
                (Some(x), Some(y), Some(z)) => Some(
                    Plan { start: Position { x: x as i8, y: y as i8, z: z as i8 }, ..plan },
                ),
                _ => None,
            }
        }
    } else {
        Some(plan)
    }
}

/// The plan after the first `n` lines have been read.
pub open spec fn read_lines(list: Seq<Seq<char>>, n: int, plan: Plan) -> Option<Plan>
    decreases n,
{
    if n <= 0 {
        Some(plan)
    } else {
        match read_lines(list, n - 1, plan) {
            None => None,
            Some(sofar) => read_line(words(list[n - 1]), sofar),
        }
    }
}

/// Whether the first `n` words all spell coordinates.
pub open spec fn coordinates_only(line: Seq<Seq<char>>, n: int) -> bool {
    forall|i: int| 0 <= i < n ==> coordinate(#[trigger] line[i]).is_some()
}

/// The start after a line with the given words has been looked at for
/// bare coordinates; `None` if the line cannot be read.
pub open spec fn read_bare_line(line: Seq<Seq<char>>, start: Position) -> Option<Position> {
    if line.len() == 0 {
        None
    } else if coordinate(line[0]).is_none() {
        Some(start)
    } else if !coordinates_only(line, line.len() as int) {
        None
    } else if line.len() != 3 {
        Some(start)
    } else {
        Some(
            Position {
                x: coordinate(line[0]).unwrap() as i8,
                y: coordinate(line[1]).unwrap() as i8,
                z: coordinate(line[2]).unwrap() as i8,
            },
        )
    }
}

/// The start after the first `n` lines have been looked at for bare
/// coordinates.
pub open spec fn read_bare_lines(list: Seq<Seq<char>>, n: int, start: Position) -> Option<Position>
    decreases n,
{
    if n <= 0 {
        Some(start)
    } else {
        match read_bare_lines(list, n - 1, start) {
            None => None,
            Some(sofar) => read_bare_line(words(list[n - 1]), sofar),
        }
    }
}

/// The plan that nothing has been read into: no condition, no link, no
/// direction, the first brick at the origin.
pub open spec fn blank() -> Plan {
    Plan {
        conditions: Seq::empty(),
        chain: Seq::empty(),
        orientations: Seq::empty(),
        start: Position { x: 0, y: 0, z: 0 },
    }
}

/// What a description says; `None` if it cannot be read.
pub open spec fn plan_of(text: Seq<char>) -> Option<Plan> {
    let list = lines(text);
    match read_lines(list, list.len() as int, blank()) {
        None => None,
        Some(plan) => match read_bare_lines(list, list.len() as int, plan.start) {
            None => None,
            Some(start) => Some(Plan { start, ..plan }),
        },
    }
}

/// The bricks that are laid by hand behind `last`, for the links from
/// index `link` on and with the directions from index `used` on: a straight
/// link is followed straight ahead; a turn takes the next direction, and
/// the laying ends where no direction is left. `None` if a brick would
/// leave the grid.
pub open spec fn laid_after(
    chain: Seq<Form>,
    orientations: Seq<Orientation>,
    link: int,
    used: int,
    last: Brick,
) -> Option<Seq<Brick>>
    decreases chain.len() - link,
{
    if link < 0 || link >= chain.len() {
        Some(Seq::empty())
    } else if chain[link] == Form::Turn && (used < 0 || used >= orientations.len()) {
        Some(Seq::empty())
    } else if !last.coordinates.can_step(last.orientation) {
        None
    } else {
        let next = if chain[link] == Form::Straight {
            last.straight()
        } else {
            last.turned(orientations[used])
        };
        let used_then = if chain[link] == Form::Straight {
            used
        } else {
            used + 1
        };
        match laid_after(chain, orientations, link + 1, used_then, next) {
            None => None,
            Some(rest) => Some(seq![next] + rest),
        }
    }
}

/// The bricks that are laid by hand for a plan, the first one first. A
/// chain without links lays none; otherwise the first brick lies on the
/// start, takes the first direction and records the first link. `None` if
/// there is no direction for it, or if a brick would leave the grid.
pub open spec fn laid(plan: Plan) -> Option<Seq<Brick>> {
    if plan.chain.len() == 0 {
        Some(Seq::empty())
    } else if plan.orientations.len() == 0 {
        None
    } else {
        let first = Brick {
            coordinates: plan.start,
            form: plan.chain[0],
            orientation: plan.orientations[0],
        };
        match laid_after(plan.chain, plan.orientations, 1, 1, first) {
            None => None,
            Some(rest) => Some(seq![first] + rest),
        }
    }
}

/// The lineage of bricks that were laid one after the other: the last one
/// first.
pub open spec fn stacked(bricks: Seq<Brick>) -> Seq<Brick>
    decreases bricks.len(),
{
    if bricks.len() == 0 {
        Seq::empty()
    } else {
        seq![bricks.last()] + stacked(bricks.drop_last())
    }
}

/// The frontier of a search in which `bricks` were laid by hand.
pub open spec fn seeded_frontier(bricks: Seq<Brick>) -> Seq<Seq<Brick>> {
    if bricks.len() == 0 {
        Seq::empty()
    } else {
        seq![stacked(bricks)]
    }
}

/// The log of a search in which `n` bricks were laid by hand.
pub open spec fn seeded_log(n: nat) -> Seq<(usize, usize)> {
    Seq::new(n, |i: int| (i as usize, 1usize))
}

/// The bricks laid behind `last`: each records the link it was laid for
/// and lies one step ahead of the brick before it.
pub proof fn lemma_laid_after(
    chain: Seq<Form>,
    orientations: Seq<Orientation>,
    link: int,
    used: int,
    last: Brick,
)
    requires
        0 <= link,
        laid_after(chain, orientations, link, used, last).is_some(),
    ensures
        ({
            let rest = laid_after(chain, orientations, link, used, last).unwrap();
            &&& link + rest.len() <= chain.len() || rest.len() == 0
            &&& forall|i: int| 0 <= i < rest.len() ==> (#[trigger] rest[i]).form == chain[link + i]
            &&& rest.len() > 0 ==> rest[0].coordinates == last.coordinates.step(last.orientation)
            &&& forall|i: int|
                0 <= i < rest.len() - 1 ==> (#[trigger] rest[i + 1]).coordinates
                    == rest[i].coordinates.step(rest[i].orientation)
        }),
    decreases chain.len() - link,
{
    let rest = laid_after(chain, orientations, link, used, last).unwrap();
    if rest.len() > 0 {
        let next = rest[0];
        let used_then = if chain[link] == Form::Straight {
            used
        } else {
            used + 1
        };
        lemma_laid_after(chain, orientations, link + 1, used_then, next);
        let tail = laid_after(chain, orientations, link + 1, used_then, next).unwrap();
        assert(rest =~= seq![next] + tail);
        assert forall|i: int| 0 <= i < rest.len() implies (#[trigger] rest[i]).form == chain[link
            + i] by {
            if i > 0 {
                assert(rest[i] == tail[i - 1]);
            }
        }
        assert forall|i: int| 0 <= i < rest.len() - 1 implies (#[trigger] rest[i + 1]).coordinates
            == rest[i].coordinates.step(rest[i].orientation) by {
            assert(rest[i + 1] == tail[i]);
            if i > 0 {
                assert(rest[i] == tail[i - 1]);
                assert(tail[i - 1 + 1].coordinates == tail[i - 1].coordinates.step(
                    tail[i - 1].orientation,
                ));
            }
        }
    }
}

/// The lineage of bricks laid one after the other lists them backwards.
pub proof fn lemma_stacked(bricks: Seq<Brick>)
    ensures
        stacked(bricks).len() == bricks.len(),
        forall|i: int|
            0 <= i < bricks.len() ==> #[trigger] stacked(bricks)[i] == bricks[bricks.len() - 1 - i],
    decreases bricks.len(),
{
    if bricks.len() > 0 {
        lemma_stacked(bricks.drop_last());
        assert forall|i: int| 0 <= i < bricks.len() implies #[trigger] stacked(bricks)[i]
            == bricks[bricks.len() - 1 - i] by {
            if i > 0 {
                assert(stacked(bricks)[i] == stacked(bricks.drop_last())[i - 1]);
            }
        }
    }
}

/// The bricks laid by hand spell the chain as far as they go, start on the
/// start of the plan, and each lies one step ahead of the brick before it.
/// So the lineage that a description seeds is faithful to its chain.
pub proof fn lemma_laid(plan: Plan)
    requires
        laid(plan).is_some(),
    ensures
        ({
            let bricks = laid(plan).unwrap();
            &&& bricks.len() <= plan.chain.len()
            &&& forall|i: int| 0 <= i < bricks.len() ==> (#[trigger] bricks[i]).form == plan.chain[i]
            &&& bricks.len() > 0 ==> bricks[0].coordinates == plan.start
            &&& forall|i: int|
                0 <= i < bricks.len() - 1 ==> (#[trigger] bricks[i + 1]).coordinates
                    == bricks[i].coordinates.step(bricks[i].orientation)
            &&& faithful(plan.chain, stacked(bricks), bricks.len())
        }),
{
    let bricks = laid(plan).unwrap();
    if plan.chain.len() > 0 {
        let first = bricks[0];
        lemma_laid_after(plan.chain, plan.orientations, 1, 1, first);
        let rest = laid_after(plan.chain, plan.orientations, 1, 1, first).unwrap();
        assert(bricks =~= seq![first] + rest);
        assert forall|i: int| 0 <= i < bricks.len() implies (#[trigger] bricks[i]).form
            == plan.chain[i] by {
            if i > 0 {
                assert(bricks[i] == rest[i - 1]);
            }
        }
        assert forall|i: int| 0 <= i < bricks.len() - 1 implies (#[trigger] bricks[i
            + 1]).coordinates == bricks[i].coordinates.step(bricks[i].orientation) by {
            assert(bricks[i + 1] == rest[i]);
            if i > 0 {
                assert(bricks[i] == rest[i - 1]);
                assert(rest[i - 1 + 1].coordinates == rest[i - 1].coordinates.step(
                    rest[i - 1].orientation,
                ));
            }
        }
    }
    lemma_stacked(bricks);
    assert(forms(stacked(bricks)) =~= plan.chain.take(bricks.len() as int));
}

/// Once a line cannot be read, no later line mends it.
pub proof fn lemma_read_lines_stays_failed(list: Seq<Seq<char>>, n: int, m: int, plan: Plan)
    requires
        n <= m,
        read_lines(list, n, plan).is_none(),
    ensures
        read_lines(list, m, plan).is_none(),
    decreases m - n,
{
    if n < m {
        lemma_read_lines_stays_failed(list, n, m - 1, plan);
    }
}

/// Once a line cannot be read, no later line mends it.
pub proof fn lemma_read_bare_lines_stays_failed(
    list: Seq<Seq<char>>,
    n: int,
    m: int,
    start: Position,
)
    requires
        n <= m,
        read_bare_lines(list, n, start).is_none(),
    ensures
        read_bare_lines(list, m, start).is_none(),
    decreases m - n,
{
    if n < m {
        lemma_read_bare_lines_stays_failed(list, n, m - 1, start);
    }
}

/// A description together with the search that it seeds.
pub struct Parser {
    /// The description as it was given.
    pub inputstring: String,
    /// The search, seeded with the bricks that the description lays by hand.
    pub path: Path,
}

/// Appends the links that the letters of a word stand for.
fn push_forms(chain: &mut Chain, word: &Vec<char>)
    ensures
        final(chain)@ == old(chain)@ + forms_in(word@),
{
    let mut i: usize = 0;
    assert(chain@ =~= old(chain)@ + forms_in(word@.take(0)));
    while i < word.len()
        invariant
            i <= word@.len(),
            chain@ == old(chain)@ + forms_in(word@.take(i as int)),
        decreases word@.len() - i,
    {
        let ghost before = chain@;
        proof {
            assert(word@.take(i as int + 1).drop_last() =~= word@.take(i as int));
        }
        let ff = word[i];
        if ff == 'S' {
            chain.add(Form::Straight);
        } else if ff == 'T' {
            chain.add(Form::Turn);
        }
        assert(chain@ =~= old(chain)@ + forms_in(word@.take(i as int + 1)));
        i += 1;
    }
    assert(word@.take(i as int) =~= word@);
}

/// Appends the directions that the letters of a word stand for.
fn push_orientations(orientations: &mut Vec<Orientation>, word: &Vec<char>)
    ensures
        final(orientations)@ == old(orientations)@ + orientations_in(word@),
{
    let mut i: usize = 0;
    assert(orientations@ =~= old(orientations)@ + orientations_in(word@.take(0)));
    while i < word.len()
        invariant
            i <= word@.len(),
            orientations@ == old(orientations)@ + orientations_in(word@.take(i as int)),
        decreases word@.len() - i,
    {
        proof {
            assert(word@.take(i as int + 1).drop_last() =~= word@.take(i as int));
        }
        let ff = word[i];
        if ff == 'N' {
            orientations.push(Orientation::North);
        } else if ff == 'S' {
            orientations.push(Orientation::South);
        } else if ff == 'E' {
            orientations.push(Orientation::East);
        } else if ff == 'W' {
            orientations.push(Orientation::West);
        } else if ff == 'U' {
            orientations.push(Orientation::Up);
        } else if ff == 'D' {
            orientations.push(Orientation::Down);
        }
        assert(orientations@ =~= old(orientations)@ + orientations_in(word@.take(i as int + 1)));
        i += 1;
    }
    assert(word@.take(i as int) =~= word@);
}

/// The coordinate that a word spells, if it spells one.
fn parse_coordinate(word: &Vec<char>) -> (value: Option<i8>)
    ensures
        match value {
            None => coordinate(word@).is_none(),
            Some(n) => coordinate(word@) == Some(n as int),
        },
{
    match parse_number(word, i8::MIN as i32, i8::MAX as i32) {
        None => None,
        Some(n) => Some(n as i8),
    }
}

/// The plan that the four parts of a description make up.
pub open spec fn plan_from(
    area: &Area,
    chain: &Chain,
    orientations: Seq<Orientation>,
    start: Position,
) -> Plan {
    Plan { conditions: area.conditions@, chain: chain@, orientations, start }
}

/// Reads one line into the plan. Returns whether the line could be read.
fn read_directive(
    lv: &Vec<Vec<char>>,
    area: &mut Area,
    chain: &mut Chain,
    orientations: &mut Vec<Orientation>,
    startbrick: &mut Position,
) -> (read: bool)
    ensures
        read == read_line(
            views(lv@),
            plan_from(old(area), old(chain), old(orientations)@, *old(startbrick)),
        ).is_some(),
        read ==> read_line(
            views(lv@),
            plan_from(old(area), old(chain), old(orientations)@, *old(startbrick)),
        ) == Some(plan_from(final(area), final(chain), final(orientations)@, *final(startbrick))),
{
    let ghost line = views(lv@);
    let ghost plan = plan_from(area, chain, orientations@, *startbrick);
    if lv.len() == 0 {
        return false;
    }
    assert(line[0] == lv@[0]@);
    if is_word(&lv[0], "area") {
        if lv.len() < 2 {
            return false;
        }
        assert(line[1] == lv@[1]@);
        if !is_word(&lv[1], "cube") {
            return true;
        }
        if lv.len() < 3 {
            return false;
        }
        assert(line[2] == lv@[2]@);
        match parse_number(&lv[2], i32::MIN, i32::MAX) {
            None => {
                return false;
            },
            Some(side) => {
                if side == 3 {
                    area.conditions.push(Condition::cube(3));
                } else if side == 4 {
                    area.conditions.push(Condition::cube(4));
                }
                true
            },
        }
    } else if is_word(&lv[0], "chain") {
        if lv.len() < 3 {
            return false;
        }
        assert(line[2] == lv@[2]@);
        push_forms(chain, &lv[2]);
        true
    } else if is_word(&lv[0], "path") {
        if lv.len() < 2 {
            return false;
        }
        assert(line[1] == lv@[1]@);
        push_orientations(orientations, &lv[1]);
        true
    } else if is_word(&lv[0], "start") {
        if lv.len() < 4 {
            return false;
        }
        assert(line[1] == lv@[1]@);
        assert(line[2] == lv@[2]@);
        assert(line[3] == lv@[3]@);
        let x = match parse_coordinate(&lv[1]) {
            None => {
                return false;
            },
            Some(x) => x,
        };
        let y = match parse_coordinate(&lv[2]) {
            None => {
                return false;
            },
            Some(y) => y,
        };
        let z = match parse_coordinate(&lv[3]) {
            None => {
                return false;
            },
            Some(z) => z,
        };
        *startbrick = Position { x: x, y: y, z: z };
        true
    } else {
        true
    }
}

/// Looks at one line for bare coordinates. Returns the start after the
/// line, or `None` if the line could not be read.
#[verifier::loop_isolation(false)]
fn read_bare(lv: &Vec<Vec<char>>, startbrick: Position) -> (start: Option<Position>)
    ensures
        start == read_bare_line(views(lv@), startbrick),
{
    let ghost line = views(lv@);
    if lv.len() == 0 {
        return None;
    }
    assert(line[0] == lv@[0]@);
    if parse_coordinate(&lv[0]).is_none() {
        return Some(startbrick);
    }
    let mut coord: Vec<i8> = Vec::new();
    let mut i: usize = 0;
    while i < lv.len()
        invariant
            i <= lv@.len(),
            line == views(lv@),
            coord@.len() == i,
            coordinates_only(line, i as int),
            forall|j: int| 0 <= j < i ==> coordinate(#[trigger] line[j]) == Some(coord@[j] as int),
        decreases lv@.len() - i,
    {
        assert(line[i as int] == lv@[i as int]@);
        match parse_coordinate(&lv[i]) {
            None => {
                return None;
            },
            Some(n) => {
                coord.push(n);
            },
        }
        i += 1;
    }
    if coord.len() != 3 {
        return Some(startbrick);
    }
    Some(Position::new(coord[0], coord[1], coord[2]))
}

/// Reads a description. Returns the region, the chain, the directions and
/// the start that it gives, or `None` if it cannot be read.
#[verifier::loop_isolation(false)]
fn read_plan(input: &String) -> (parts: Option<(Area, Chain, Vec<Orientation>, Position)>)
    ensures
        match parts {
            None => plan_of(input@).is_none(),
            Some((area, chain, orientations, start)) => plan_of(input@) == Some(
                plan_from(&area, &chain, orientations@, start),
            ),
        },
{
    let mut area = Area::new();
    let mut chain = Chain::new();
    let mut orientations: Vec<Orientation> = Vec::new();
    let mut startbrick = Position::new(0, 0, 0);
    let text = chars_of(input.as_str());
    let list = split_lines(&text);
    let ghost all = lines(input@);
    assert(plan_from(&area, &chain, orientations@, startbrick) == blank());

    let mut n: usize = 0;
    while n < list.len()
        invariant
            n <= list@.len(),
            views(list@) == all,
            read_lines(all, n as int, blank()) == Some(
                plan_from(&area, &chain, orientations@, startbrick),
            ),
        decreases list@.len() - n,
    {
        let lv = split_words(&list[n]);
        assert(all[n as int] == list@[n as int]@);
        if !read_directive(&lv, &mut area, &mut chain, &mut orientations, &mut startbrick) {
            proof {
                assert(read_lines(all, n as int + 1, blank()).is_none());
                lemma_read_lines_stays_failed(all, n as int + 1, all.len() as int, blank());
            }
            return None;
        }
        n += 1;
    }
    let ghost first = startbrick;
    let ghost plan = plan_from(&area, &chain, orientations@, first);
    let mut n: usize = 0;
    while n < list.len()
        invariant
            n <= list@.len(),
            views(list@) == all,
            read_bare_lines(all, n as int, first) == Some(startbrick),
        decreases list@.len() - n,
    {
        let lv = split_words(&list[n]);
        assert(all[n as int] == list@[n as int]@);
        match read_bare(&lv, startbrick) {
            None => {
                proof {
                    assert(read_bare_lines(all, n as int + 1, first).is_none());
                    lemma_read_bare_lines_stays_failed(all, n as int + 1, all.len() as int, first);
                }
                return None;
            },
            Some(start) => {
                startbrick = start;
            },
        }
        n += 1;
    }
    Some((area, chain, orientations, startbrick))
}

/// Lays the bricks of the plan by hand, into a search that is still empty.
/// Returns whether they could be laid.
#[verifier::loop_isolation(false)]
fn seed(path: &mut Path, orientations: &Vec<Orientation>, start: Position) -> (seeded: bool)
    requires
        old(path).last_layer@.len() == 0,
        old(path).last_layer_index == 0,
        old(path).statistics@.len() == 0,
    ensures
        final(path).area == old(path).area,
        final(path).chain == old(path).chain,
        seeded == laid(plan_from(&old(path).area, &old(path).chain, orientations@, start)).is_some(),
        seeded ==> ({
            let bricks = laid(
                plan_from(&old(path).area, &old(path).chain, orientations@, start),
            ).unwrap();
            &&& final(path).frontier() == seeded_frontier(bricks)
            &&& final(path).last_layer_index == bricks.len()
            &&& final(path).statistics@ == seeded_log(bricks.len())
        }),
{
    let ghost chain = path.chain@;
    let ghost plan = plan_from(&path.area, &path.chain, orientations@, start);
    let n = path.chain.len();
    if n == 0 {
        assert(path.frontier() =~= seeded_frontier(Seq::empty()));
        assert(path.statistics@ =~= seeded_log(0));
        return true;
    }
    if orientations.len() == 0 {
        return false;
    }
    let first = Brick::new(start, orientations[0], path.chain.dirs[0]);
    path.add_brick(&first);
    let ghost mut done: Seq<Brick> = seq![first];
    let mut nb = first;
    let mut link: usize = 1;
    let mut used: usize = 1;
    proof {
        assert(done.drop_last() =~= Seq::<Brick>::empty());
        assert(stacked(done.drop_last()) =~= Seq::<Brick>::empty());
        assert(stacked(done) =~= seq![first]);
        assert(path.frontier() =~= seq![stacked(done)]);
        assert(path.statistics@ =~= seeded_log(1));
        assert(done.skip(1) + Seq::<Brick>::empty() =~= Seq::<Brick>::empty());
    }
    while link < n
        invariant
            path.area == old(path).area,
            path.chain == old(path).chain,
            chain == path.chain@,
            n == chain.len(),
            plan == plan_from(&old(path).area, &old(path).chain, orientations@, start),
            1 <= link <= n,
            1 <= used <= orientations@.len(),
            done.len() == link,
            done[0] == first,
            done.last() == nb,
            path.frontier() == seq![stacked(done)],
            path.last_layer_index == link,
            path.statistics@ == seeded_log(link as nat),
            laid_after(chain, orientations@, 1, 1, first) == match laid_after(
                chain,
                orientations@,
                link as int,
                used as int,
                nb,
            ) {
                None => None::<Seq<Brick>>,
                Some(rest) => Some(done.skip(1) + rest),
            },
        decreases n - link,
    {
        let frm = path.chain.dirs[link];
        let ghost before = done;
        let ghost last = nb;
        match frm {
            Form::Straight => {
                if !nb.coordinates.has_neighbour(nb.orientation) {
                    return false;
                }
                nb = nb.next_straight();
            },
            Form::Turn => {
                if used >= orientations.len() {
                    break ;
                }
                if !nb.coordinates.has_neighbour(nb.orientation) {
                    return false;
                }
                nb = nb.next_turn_orientation(&orientations[used]);
                used += 1;
            },
        }
        path.add_brick(&nb);
        proof {
            done = before.push(nb);
            assert(done.drop_last() =~= before);
            assert(path.frontier() =~= seq![stacked(done)]);
            assert(path.statistics@ =~= seeded_log(link as nat + 1));
            match laid_after(chain, orientations@, link as int + 1, used as int, nb) {
                None => {},
                Some(rest) => {
                    assert(before.skip(1) + (seq![nb] + rest) =~= done.skip(1) + rest);
                },
            }
        }
        link += 1;
    }
    proof {
        assert(laid_after(chain, orientations@, link as int, used as int, nb) == Some(
            Seq::<Brick>::empty(),
        ));
        assert(done.skip(1) + Seq::<Brick>::empty() =~= done.skip(1));
        assert(seq![first] + done.skip(1) =~= done);
    }
    true
}

impl Parser {
    /// Whether a description can be read: every line can, there is a
    /// direction for the first brick if the chain has a link, and the bricks
    /// laid by hand stay on the grid.
    pub open spec fn readable(text: Seq<char>) -> bool {
        plan_of(text) matches Some(plan) && laid(plan).is_some()
    }

    /// Whether `self` is what the description `text` makes: it keeps the
    /// text, and its search has the region and the chain of the plan, the
    /// bricks laid by hand as its only lineage, and one entry of the log,
    /// with one lineage, for each of them.
    pub open spec fn reads(&self, text: Seq<char>) -> bool {
        &&& self.inputstring@ == text
        &&& plan_of(text) matches Some(plan) && laid(plan) matches Some(bricks) && {
            &&& self.path.area.conditions@ == plan.conditions
            &&& self.path.chain@ == plan.chain
            &&& self.path.frontier() == seeded_frontier(bricks)
            &&& self.path.last_layer_index == bricks.len()
            &&& self.path.statistics@ == seeded_log(bricks.len())
        }
    }

    /// Reads a description, if it can be read.
    fn read(input: &String) -> (parser: Option<Parser>)
        ensures
            parser.is_some() == Parser::readable(input@),
            parser matches Some(p) ==> p.reads(input@),
    {
        let (area, chain, orientations, startbrick) = match read_plan(input) {
            None => {
                return None;
            },
            Some(parts) => parts,
        };
        let mut path = Path::new(area, chain);
        if !seed(&mut path, &orientations, startbrick) {
            return None;
        }
        Some(Parser { path: path, inputstring: input.clone() })
    }

    /// Whether `new` can read the description.
    pub fn accepts(input: &String) -> (readable: bool)
        ensures
            readable == Parser::readable(input@),
    {
        Parser::read(input).is_some()
    }

    /// Reads a description and seeds the search with the bricks that it
    /// lays by hand.
    pub fn new(input: &String) -> (parser: Parser)
        requires
            Parser::readable(input@),
        ensures
            parser.reads(input@),
    {
        match Parser::read(input) {
            Some(parser) => parser,
            None => unreached(),
        }
    }

    /// Reads a description if it can be read: `new` without a demand.
    pub fn try_new(input: &String) -> (parser: Option<Parser>)
        ensures
            parser.is_some() == Parser::readable(input@),
            parser matches Some(p) ==> p.reads(input@),
    {
        if Parser::accepts(input) {
            Some(Parser::new(input))
        } else {
            None
        }
    }

    /// The report: the description, a divider, the foldings that are left,
    /// in long and in short, if they are fewer than ten, and the table of
    /// the log.
    pub fn output(&self) -> (outputstring: String)
        ensures
            outputstring@ == report(self.inputstring@, self.path.frontier(), self.path.statistics@),
    {
        let mut outputstring = self.inputstring.clone();
        outputstring.append("=========================\n");
        if self.path.last_layer.len() < 10 {
            outputstring.append(self.path.solution_string_long().as_str());
            outputstring.append("-------------------------\n");
            outputstring.append(self.path.solution_string_short().as_str());
            outputstring.append("-------------------------\n");
        }
        outputstring.append(self.path.solution_string_statistics().as_str());
        assert(outputstring@ =~= report(
            self.inputstring@,
            self.path.frontier(),
            self.path.statistics@,
        ));
        outputstring
    }
}

/// The report on a search: the description, a divider, the long and the
/// short report with a divider behind each, if the frontier has fewer than
/// ten lineages, and the table of the log.
pub open spec fn report(
    text: Seq<char>,
    frontier: Seq<Seq<Brick>>,
    statistics: Seq<(usize, usize)>,
) -> Seq<char> {
    let listing = if frontier.len() < 10 {
        long_report(frontier) + "-------------------------\n"@ + short_report(frontier)
            + "-------------------------\n"@
    } else {
        Seq::empty()
    };
    text + "=========================\n"@ + listing + statistics_report(statistics)
}

} // verus!
