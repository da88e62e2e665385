//! Positions on the integer grid, the six directions, and placed bricks.
use super::chain::Form;
use std::ops::Add;
use vstd::prelude::*;
use vstd::std_specs::ops::AddSpecImpl;

verus! {

/// A cell of the grid.
#[derive(Copy, Clone, Debug, PartialEq, Eq, Structural)]
pub struct Position {
    pub x: i8,
    pub y: i8,
    pub z: i8,
}

/// One of the six directions along the axes of the grid.
#[derive(Copy, Clone, Debug, PartialEq, Eq, Structural)]
pub enum Orientation {
    North,
    South,
    East,
    West,
    Up,
    Down,
}

/// The three axes of the grid.
#[derive(Copy, Clone, Debug, PartialEq, Eq, Structural)]
pub enum Axis {
    X,
    Y,
    Z,
}

impl Orientation {
    /// The unit displacement of the direction: north and south run along x,
    /// east and west along y, up and down along z.
    pub open spec fn spec_delta(self) -> (i8, i8, i8) {
        match self {
            Orientation::North => (1i8, 0i8, 0i8),
            Orientation::South => (-1i8, 0i8, 0i8),
            Orientation::East => (0i8, 1i8, 0i8),
            Orientation::West => (0i8, -1i8, 0i8),
            Orientation::Up => (0i8, 0i8, 1i8),
            Orientation::Down => (0i8, 0i8, -1i8),
        }
    }

    /// The unit displacement of the direction.
    #[verifier::when_used_as_spec(spec_delta)]
    pub fn delta(self) -> (d: (i8, i8, i8))
        ensures
            d == self.spec_delta(),
    {
        match self {
            Orientation::North => (1, 0, 0),
            Orientation::South => (-1, 0, 0),
            Orientation::East => (0, 1, 0),
            Orientation::West => (0, -1, 0),
            Orientation::Up => (0, 0, 1),
            Orientation::Down => (0, 0, -1),
        }
    }

    /// The axis along which the direction runs.
    pub open spec fn axis(self) -> Axis {
        match self {
            Orientation::North | Orientation::South => Axis::X,
            Orientation::East | Orientation::West => Axis::Y,
            Orientation::Up | Orientation::Down => Axis::Z,
        }
    }

    /// The four directions a turn can take from `self`, in the order in which
    /// they are tried: those along the two other axes.
    pub open spec fn turns(self) -> Seq<Orientation> {
        match self.axis() {
            Axis::X => seq![Orientation::East, Orientation::West, Orientation::Up, Orientation::Down],
            Axis::Y => seq![Orientation::North, Orientation::South, Orientation::Up, Orientation::Down],
            Axis::Z => seq![Orientation::North, Orientation::South, Orientation::East, Orientation::West],
        }
    }
}

/// The six directions in the order in which neighbours are listed.
pub open spec fn compass() -> Seq<Orientation> {
    seq![
        Orientation::North,
        Orientation::South,
        Orientation::East,
        Orientation::West,
        Orientation::Up,
        Orientation::Down,
    ]
}

impl Position {
    /// Whether the neighbour in direction `o` still has `i8` coordinates.
    pub open spec fn can_step(self, o: Orientation) -> bool {
        let (dx, dy, dz) = o.delta();
        &&& i8::MIN <= self.x + dx <= i8::MAX
        &&& i8::MIN <= self.y + dy <= i8::MAX
        &&& i8::MIN <= self.z + dz <= i8::MAX
    }

    /// The neighbour in direction `o`.
    pub open spec fn step(self, o: Orientation) -> Position
        recommends
            self.can_step(o),
    {
        let (dx, dy, dz) = o.delta();
        Position { x: (self.x + dx) as i8, y: (self.y + dy) as i8, z: (self.z + dz) as i8 }
    }

    /// Whether all six neighbours have `i8` coordinates.
    pub open spec fn inner(self) -> bool {
        &&& i8::MIN < self.x < i8::MAX
        &&& i8::MIN < self.y < i8::MAX
        &&& i8::MIN < self.z < i8::MAX
    }

    /// The six neighbours, in the order of `compass`.
    pub open spec fn around(self) -> Seq<Position>
        recommends
            self.inner(),
    {
        Seq::new(6, |i: int| self.step(compass()[i]))
    }

    /// Whether `self` and `other` differ by one step along one axis.
    pub open spec fn touches(self, other: Position) -> bool {
        let dx = self.x - other.x;
        let dy = self.y - other.y;
        let dz = self.z - other.z;
        ||| (dx == 1 || dx == -1) && dy == 0 && dz == 0
        ||| dx == 0 && (dy == 1 || dy == -1) && dz == 0
        ||| dx == 0 && dy == 0 && (dz == 1 || dz == -1)
    }

    /// Whether the step in direction `o` stays on the grid.
    pub fn has_neighbour(self, o: Orientation) -> (on_grid: bool)
        ensures
            on_grid == self.can_step(o),
    {
        match o {
            Orientation::North => self.x < i8::MAX,
            Orientation::South => self.x > i8::MIN,
            Orientation::East => self.y < i8::MAX,
            Orientation::West => self.y > i8::MIN,
            Orientation::Up => self.z < i8::MAX,
            Orientation::Down => self.z > i8::MIN,
        }
    }

    /// The cell with the given coordinates.
    pub fn new(x: i8, y: i8, z: i8) -> (pos: Position)
        ensures
            pos == (Position { x, y, z }),
    {
        Position { x, y, z }
    }

    /// The six neighbours of an inner cell: north, south, east, west, up, down.
    pub fn neighbours(self) -> (around: [Position; 6])
        requires
            self.inner(),
        ensures
            around@ == self.around(),
    {
        let around = [
            self + Orientation::North,
            self + Orientation::South,
            self + Orientation::East,
            self + Orientation::West,
            self + Orientation::Up,
            self + Orientation::Down,
        ];
        assert(around@ =~= self.around());
        around
    }
}

impl Add<Orientation> for Position {
    type Output = Position;

    /// One step in direction `rhs`. The step must not leave the `i8` range.
    fn add(self, rhs: Orientation) -> (pos: Position) {
        match rhs {
            Orientation::North => Position::new(self.x + 1, self.y, self.z),
            Orientation::South => Position::new(self.x - 1, self.y, self.z),
            Orientation::East => Position::new(self.x, self.y + 1, self.z),
            Orientation::West => Position::new(self.x, self.y - 1, self.z),
            Orientation::Up => Position::new(self.x, self.y, self.z + 1),
            Orientation::Down => Position::new(self.x, self.y, self.z - 1),
        }
    }
}

impl AddSpecImpl<Orientation> for Position {
    /// `+` does what `add_spec` says.
    open spec fn obeys_add_spec() -> bool {
        true
    }

    /// `+` asks that the step stays on the grid.
    open spec fn add_req(self, rhs: Orientation) -> bool {
        self.can_step(rhs)
    }

    /// `+` gives the neighbour in direction `rhs`.
    open spec fn add_spec(self, rhs: Orientation) -> Position {
        self.step(rhs)
    }
}

/// A step leads to a touching cell, and every touching cell is one step away.
pub proof fn lemma_touching_is_one_step(p: Position, q: Position)
    requires
        p.inner(),
    ensures
        p.touches(q) <==> exists|i: int| 0 <= i < 6 && #[trigger] p.around()[i] == q,
{
    if p.touches(q) {
        let dx = q.x - p.x;
        let dy = q.y - p.y;
        let dz = q.z - p.z;
        let i: int = if dx == 1 {
            0
        } else if dx == -1 {
            1
        } else if dy == 1 {
            2
        } else if dy == -1 {
            3
        } else if dz == 1 {
            4
        } else {
            5
        };
        assert(p.around()[i] == q);
    }
}

/// A placed segment of the snake: where it lies, the link that led to it,
/// and the direction in which the snake leaves it.
#[derive(Copy, Clone, Debug, PartialEq, Eq, Structural)]
pub struct Brick {
    /// The cell that the brick lies on.
    pub coordinates: Position,
    /// The form of the link that led to the brick.
    pub form: Form,
    /// The direction from the brick to the one that follows it.
    pub orientation: Orientation,
}

impl Brick {
    /// The brick that follows `self` straight ahead.
    pub open spec fn straight(self) -> Brick {
        Brick {
            orientation: self.orientation,
            coordinates: self.coordinates.step(self.orientation),
            form: Form::Straight,
        }
    }

    /// The brick that follows `self` and leaves in direction `ori`.
    pub open spec fn turned(self, ori: Orientation) -> Brick {
        Brick {
            orientation: ori,
            coordinates: self.coordinates.step(self.orientation),
            form: Form::Turn,
        }
    }

    /// The bricks that can follow `self` over a link of the given form: one
    /// for a straight link, four for a turn.
    pub open spec fn successors(self, form: Form) -> Seq<Brick> {
        match form {
            Form::Straight => seq![self.straight()],
            Form::Turn => Seq::new(4, |i: int| self.turned(self.orientation.turns()[i])),
        }
    }

    /// A brick on `crd` that was reached over a link of form `frm` and
    /// points in direction `orient`.
    pub fn new(crd: Position, orient: Orientation, frm: Form) -> (brick: Brick)
        ensures
            brick == (Brick { coordinates: crd, form: frm, orientation: orient }),
    {
        Brick { orientation: orient, coordinates: crd, form: frm }
    }

    /// The brick that follows `self` over a straight link: one step ahead,
    /// pointing the same way.
    pub fn next_straight(&self) -> (brick: Brick)
        requires
            self.coordinates.can_step(self.orientation),
        ensures
            brick == self.straight(),
    {
        Brick {
            orientation: self.orientation,
            coordinates: self.coordinates + self.orientation,
            form: Form::Straight,
        }
    }

    /// The brick that follows `self` over a turn into direction `ori`: one
    /// step ahead in the old direction, pointing in the new one.
    pub fn next_turn_orientation(&self, ori: &Orientation) -> (brick: Brick)
        requires
            self.coordinates.can_step(self.orientation),
        ensures
            brick == self.turned(*ori),
    {
        Brick {
            orientation: *ori,
            coordinates: self.coordinates + self.orientation,
            form: Form::Turn,
        }
    }

    /// The four bricks that can follow `self` over a turn.
    pub fn next_turn(&self) -> (bricks: [Brick; 4])
        requires
            self.coordinates.can_step(self.orientation),
        ensures
            bricks@ == self.successors(Form::Turn),
    {
        let coord = self.coordinates + self.orientation;
        let (or0, or1, or2, or3) = match self.orientation {
            Orientation::North | Orientation::South => (
                Orientation::East,
                Orientation::West,
                Orientation::Up,
                Orientation::Down,
            ),
            Orientation::East | Orientation::West => (
                Orientation::North,
                Orientation::South,
                Orientation::Up,
                Orientation::Down,
            ),
            Orientation::Up | Orientation::Down => (
                Orientation::North,
                Orientation::South,
                Orientation::East,
                Orientation::West,
            ),
        };
        let bricks = [
            Brick { orientation: or0, coordinates: coord, form: Form::Turn },
            Brick { orientation: or1, coordinates: coord, form: Form::Turn },
            Brick { orientation: or2, coordinates: coord, form: Form::Turn },
            Brick { orientation: or3, coordinates: coord, form: Form::Turn },
        ];
        assert(bricks@ =~= self.successors(Form::Turn));
        bricks
    }
}

/// A turn never keeps the axis of the direction it leaves: it neither goes
/// on straight nor back, and its four choices differ from each other.
pub proof fn lemma_turns_leave_the_axis(o: Orientation)
    ensures
        o.turns().len() == 4,
        forall|i: int| 0 <= i < 4 ==> (#[trigger] o.turns()[i]).axis() != o.axis(),
        o.turns().no_duplicates(),
{
}

} // verus!
