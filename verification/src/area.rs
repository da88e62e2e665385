//! The region that the snake must stay in: a list of conditions, all of
//! which a cell has to meet.
pub use crate::snake::brick::{Brick, Position};
use vstd::prelude::*;

verus! {

/// One condition on a cell: it must lie in the box between two corners, both
/// of them included.
#[derive(Copy, Clone, Debug, PartialEq, Eq, Structural)]
pub struct Condition {
    /// The corner with the least coordinates.
    pub lower: Position,
    /// The corner with the greatest coordinates.
    pub upper: Position,
}

/// Whether `pos` lies in the box between `lower` and `upper`, both included.
pub open spec fn between(lower: Position, upper: Position, pos: Position) -> bool {
    &&& lower.x <= pos.x <= upper.x
    &&& lower.y <= pos.y <= upper.y
    &&& lower.z <= pos.z <= upper.z
}

/// The cube of the given side at the origin, as a condition: every
/// coordinate is at least 0 and below `side`.
pub open spec fn cube_of(side: i8) -> Condition {
    let top: i8 = if side > i8::MIN {
        (side - 1) as i8
    } else {
        i8::MIN
    };
    Condition { lower: Position { x: 0, y: 0, z: 0 }, upper: Position { x: top, y: top, z: top } }
}

impl Condition {
    /// Whether the condition is met by `pos`.
    pub open spec fn admits(&self, pos: Position) -> bool {
        between(self.lower, self.upper, pos)
    }

    /// The cells between `lower` and `upper`, both included.
    pub fn new(lower: Position, upper: Position) -> (cond: Condition)
        ensures
            cond == (Condition { lower, upper }),
    {
        Condition { lower, upper }
    }

    /// The cells whose coordinates are all at least those of `lower`.
    pub fn at_least(lower: Position) -> (cond: Condition)
        ensures
            cond.lower == lower,
            cond.upper == (Position { x: i8::MAX, y: i8::MAX, z: i8::MAX }),
            forall|pos: Position|
                cond.admits(pos) <==> lower.x <= pos.x && lower.y <= pos.y && lower.z <= pos.z,
    {
        Condition { lower, upper: Position::new(i8::MAX, i8::MAX, i8::MAX) }
    }

    /// The cells whose coordinates are all at most those of `upper`.
    pub fn at_most(upper: Position) -> (cond: Condition)
        ensures
            cond.lower == (Position { x: i8::MIN, y: i8::MIN, z: i8::MIN }),
            cond.upper == upper,
            forall|pos: Position|
                cond.admits(pos) <==> pos.x <= upper.x && pos.y <= upper.y && pos.z <= upper.z,
    {
        Condition { lower: Position::new(i8::MIN, i8::MIN, i8::MIN), upper }
    }

    /// The cube of the given side at the origin: every coordinate is at
    /// least 0 and below `side`.
    pub fn cube(side: i8) -> (cond: Condition)
        ensures
            cond == cube_of(side),
            forall|pos: Position|
                cond.admits(pos) <==> 0 <= pos.x < side && 0 <= pos.y < side && 0 <= pos.z < side,
    {
        let top: i8 = if side > i8::MIN {
            side - 1
        } else {
            i8::MIN
        };
        Condition { lower: Position::new(0, 0, 0), upper: Position::new(top, top, top) }
    }

    /// Tests the condition on `pos`.
    pub fn accepts(&self, pos: Position) -> (met: bool)
        ensures
            met == self.admits(pos),
    {
        self.lower.x <= pos.x && pos.x <= self.upper.x && self.lower.y <= pos.y && pos.y
            <= self.upper.y && self.lower.z <= pos.z && pos.z <= self.upper.z
    }
}

/// The conditions that make up a region. A region without conditions holds
/// every cell.
pub struct Area {
    /// The conditions, in the order in which they are tested.
    pub conditions: Vec<Condition>,
}

/// Whether a cell meets the first `n` of the conditions.
pub open spec fn meets_first(conditions: Seq<Condition>, n: int, pos: Position) -> bool {
    forall|i: int| 0 <= i < n ==> (#[trigger] conditions[i]).admits(pos)
}

impl Area {
    /// Whether `pos` lies in the region: it meets every condition.
    pub open spec fn contains(&self, pos: Position) -> bool {
        meets_first(self.conditions@, self.conditions@.len() as int, pos)
    }

    /// Whether every cell of the region has all its six neighbours on the
    /// grid, so that a step from a cell of the region cannot overflow.
    pub open spec fn bounded(&self) -> bool {
        forall|pos: Position| #[trigger] self.contains(pos) ==> pos.inner()
    }

    /// The region without conditions.
    pub fn new() -> (area: Area)
        ensures
            area.conditions@ == Seq::<Condition>::empty(),
    {
        Area { conditions: Vec::new() }
    }

    /// Whether `pos` lies in the region. The answer depends on the
    /// conditions and on `pos` alone, so asking twice gives the same answer.
    pub fn is_in(&self, pos: Position) -> (inside: bool)
        ensures
            inside == self.contains(pos),
    {
        let mut i: usize = 0;
        while i < self.conditions.len()
            invariant
                i <= self.conditions.len(),
                meets_first(self.conditions@, i as int, pos),
            decreases self.conditions.len() - i,
        {
            if !self.conditions[i].accepts(pos) {
                return false;
            }
            i += 1;
        }
        true
    }

    /// Whether the region is bounded in the sense of `bounded`: it is empty,
    /// or it keeps a distance from the edge of the grid on every axis.
    pub fn is_bounded(&self) -> (bounded: bool)
        ensures
            bounded == self.bounded(),
    {
        let mut lo = Position::new(i8::MIN, i8::MIN, i8::MIN);
        let mut hi = Position::new(i8::MAX, i8::MAX, i8::MAX);
        let mut i: usize = 0;
        while i < self.conditions.len()
            invariant
                i <= self.conditions.len(),
                forall|pos: Position|
                    #[trigger] meets_first(self.conditions@, i as int, pos) <==> between(
                        lo,
                        hi,
                        pos,
                    ),
            decreases self.conditions.len() - i,
        {
            let c = self.conditions[i];
            let ghost lo0 = lo;
            let ghost hi0 = hi;
            if c.lower.x > lo.x {
                lo.x = c.lower.x;
            }
            if c.lower.y > lo.y {
                lo.y = c.lower.y;
            }
            if c.lower.z > lo.z {
                lo.z = c.lower.z;
            }
            if c.upper.x < hi.x {
                hi.x = c.upper.x;
            }
            if c.upper.y < hi.y {
                hi.y = c.upper.y;
            }
            if c.upper.z < hi.z {
                hi.z = c.upper.z;
            }
            proof {
                assert forall|pos: Position| #[trigger]
                    meets_first(self.conditions@, i as int + 1, pos) <==> between(
                        lo,
                        hi,
                        pos,
                    ) by {
                    assert(meets_first(self.conditions@, i as int + 1, pos) <==> meets_first(
                        self.conditions@,
                        i as int,
                        pos,
                    ) && self.conditions@[i as int].admits(pos));
                    assert(meets_first(self.conditions@, i as int, pos) <==> between(
                        lo0,
                        hi0,
                        pos,
                    ));
                }
            }
            i += 1;
        }
        let empty = lo.x > hi.x || lo.y > hi.y || lo.z > hi.z;
        let clear = i8::MIN < lo.x && hi.x < i8::MAX && i8::MIN < lo.y && hi.y < i8::MAX && i8::MIN
            < lo.z && hi.z < i8::MAX;
        proof {
            assert forall|pos: Position| #[trigger] self.contains(pos) <==> between(
                lo,
                hi,
                pos,
            ) by {}
            if !empty && !clear {
                let edge = Position {
                    x: if lo.x == i8::MIN { lo.x } else { hi.x },
                    y: if lo.y == i8::MIN { lo.y } else { hi.y },
                    z: if lo.z == i8::MIN { lo.z } else { hi.z },
                };
                assert(between(lo, hi, edge));
                assert(self.contains(edge));
                assert(!edge.inner());
            }
        }
        empty || clear
    }
}

/// Whether a cell lies in a region depends on which conditions the region
/// has, not on their order and not on how often one is given.
pub proof fn lemma_contains_whatever_the_order(a: &Area, b: &Area, pos: Position)
    requires
        a.conditions@.to_set() == b.conditions@.to_set(),
    ensures
        a.contains(pos) == b.contains(pos),
{
    lemma_met_by_all(a, pos);
    lemma_met_by_all(b, pos);
}

/// A cell lies in a region exactly if it meets each of its conditions.
pub proof fn lemma_met_by_all(area: &Area, pos: Position)
    ensures
        area.contains(pos) <==> forall|c: Condition|
            area.conditions@.to_set().contains(c) ==> #[trigger] c.admits(pos),
{
    if area.contains(pos) {
        assert forall|c: Condition| area.conditions@.to_set().contains(c) implies #[trigger] c.admits(
            pos,
        ) by {
            let i = choose|i: int| 0 <= i < area.conditions@.len() && area.conditions@[i] == c;
            assert(area.conditions@[i].admits(pos));
        }
    }
    if forall|c: Condition| area.conditions@.to_set().contains(c) ==> #[trigger] c.admits(pos) {
        assert forall|i: int| 0 <= i < area.conditions@.len() implies (
        #[trigger] area.conditions@[i]).admits(pos) by {
            assert(area.conditions@.to_set().contains(area.conditions@[i]));
        }
    }
}

} // verus!
