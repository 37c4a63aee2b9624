use vstd::prelude::*;
use vstd::std_specs::iter::IteratorSpec;
use crate::direction::Direction;
use crate::obstacles::ObstacleSet;
use crate::vec2d::{fits_i32, Vec2D};

verus! {

broadcast use vstd::string::group_string_axioms;

/// A rover: the cell it stands on and the way it faces.
#[derive(Clone, Copy, Debug, PartialEq, Eq, Hash, Structural)]
pub struct Rover {
    pub position: Vec2D,
    pub direction: Direction,
}

/// Whether a character is one of the four commands `F`, `B`, `L`, `R`.
pub open spec fn is_command(c: char) -> bool {
    c == 'F' || c == 'B' || c == 'L' || c == 'R'
}

impl Rover {
    /// The x coordinate one step ahead (`ahead`) or one step behind.
    pub open spec fn target_x(self, ahead: bool) -> int {
        if ahead {
            self.position.0 + self.direction.dx()
        } else {
            self.position.0 - self.direction.dx()
        }
    }

    /// The y coordinate one step ahead (`ahead`) or one step behind.
    pub open spec fn target_y(self, ahead: bool) -> int {
        if ahead {
            self.position.1 + self.direction.dy()
        } else {
            self.position.1 - self.direction.dy()
        }
    }

    /// Whether the cell one step ahead (or behind) lies on the `i32` grid.
    pub open spec fn can_step(self, ahead: bool) -> bool {
        fits_i32(self.target_x(ahead)) && fits_i32(self.target_y(ahead))
    }

    /// The rover moved one step ahead (or behind), facing unchanged.
    pub open spec fn stepped(self, ahead: bool) -> Rover {
        Rover {
            position: Vec2D(self.target_x(ahead) as i32, self.target_y(ahead) as i32),
            direction: self.direction,
        }
    }

    /// A move of one step: `Err` with the rover unchanged where the cell is
    /// blocked, else `Ok` with the moved rover.
    pub open spec fn step_result(self, ahead: bool, obstacles: Set<Vec2D>) -> Result<Rover, Rover> {
        if obstacles.contains(self.stepped(ahead).position) {
            Err(self)
        } else {
            Ok(self.stepped(ahead))
        }
    }

    pub open spec fn turned_right(self) -> Rover {
        Rover { position: self.position, direction: self.direction.right_of() }
    }

    pub open spec fn turned_left(self) -> Rover {
        Rover { position: self.position, direction: self.direction.left_of() }
    }

    /// One command applied: moves may be blocked, turns always succeed.
    pub open spec fn apply(self, c: char, obstacles: Set<Vec2D>) -> Result<Rover, Rover>
        recommends
            is_command(c),
    {
        if c == 'F' {
            self.step_result(true, obstacles)
        } else if c == 'B' {
            self.step_result(false, obstacles)
        } else if c == 'L' {
            Ok(self.turned_left())
        } else {
            Ok(self.turned_right())
        }
    }

    /// Whether a command's move, if it is one, stays on the `i32` grid.
    pub open spec fn command_fits(self, c: char) -> bool {
        &&& c == 'F' ==> self.can_step(true)
        &&& c == 'B' ==> self.can_step(false)
    }
}

/// The outcome of running `cmds` from `cur`, where the sequence as a whole
/// started from `start`: the first blocked move stops it with the rover as it
/// stands, the first character that is no command stops it with `start`.
pub open spec fn run(start: Rover, cur: Rover, cmds: Seq<char>, obstacles: Set<Vec2D>) -> Result<
    Rover,
    Rover,
>
    decreases cmds.len(),
{
    if cmds.len() == 0 {
        Ok(cur)
    } else if !is_command(cmds[0]) {
        Err(start)
    } else {
        match cur.apply(cmds[0], obstacles) {
            Ok(next) => run(start, next, cmds.drop_first(), obstacles),
            Err(stopped) => Err(stopped),
        }
    }
}

/// Whether every move that running `cmds` from `cur` attempts stays on the
/// `i32` grid.
pub open spec fn run_fits(cur: Rover, cmds: Seq<char>, obstacles: Set<Vec2D>) -> bool
    decreases cmds.len(),
{
    if cmds.len() == 0 {
        true
    } else {
        &&& cur.command_fits(cmds[0])
        &&& is_command(cmds[0]) ==> match cur.apply(cmds[0], obstacles) {
            Ok(next) => run_fits(next, cmds.drop_first(), obstacles),
            Err(_) => true,
        }
    }
}

/// The outcome of a whole command sequence from `start`.
pub open spec fn sequence_result(start: Rover, cmds: Seq<char>, obstacles: Set<Vec2D>) -> Result<
    Rover,
    Rover,
> {
    run(start, start, cmds, obstacles)
}

impl Rover {
    /// A rover on cell (x, y) facing `direction`.
    pub fn new(x: i32, y: i32, direction: Direction) -> (r: Rover)
        ensures
            r.position == Vec2D(x, y),
            r.direction == direction,
    {
        Rover { position: Vec2D(x, y), direction }
    }

    /// The displacement of one step in the given facing.
    pub(crate) fn dir_to_vec(dir: Direction) -> (r: Vec2D)
        ensures
            r.0 == dir.dx(),
            r.1 == dir.dy(),
    {
        match dir {
            Direction::North => Vec2D(0, 1),
            Direction::East => Vec2D(1, 0),
            Direction::South => Vec2D(0, -1),
            Direction::West => Vec2D(-1, 0),
        }
    }

    /// Moves one step in the facing, unless the cell there is blocked.
    pub fn forward(self, obstacles: &ObstacleSet) -> (r: Result<Rover, Rover>)
        requires
            self.can_step(true),
        ensures
            r == self.step_result(true, obstacles@),
    {
        self.try_move(obstacles, self.position.add(Self::dir_to_vec(self.direction)))
    }

    /// Moves one step against the facing, unless the cell there is blocked.
    pub fn backward(self, obstacles: &ObstacleSet) -> (r: Result<Rover, Rover>)
        requires
            self.can_step(false),
        ensures
            r == self.step_result(false, obstacles@),
    {
        self.try_move(obstacles, self.position.sub(Self::dir_to_vec(self.direction)))
    }

    fn try_move(self, obstacles: &ObstacleSet, new_pos: Vec2D) -> (r: Result<Rover, Rover>)
        ensures
            r == (if obstacles@.contains(new_pos) {
                Err(self)
            } else {
                Ok(Rover { position: new_pos, direction: self.direction })
            }),
    {
        if obstacles.contains(new_pos) {
            Err(self)
        } else {
            Ok(Rover { position: new_pos, direction: self.direction })
        }
    }

    /// A quarter turn clockwise, on the spot.
    pub fn turn_right(self) -> (r: Rover)
        ensures
            r == self.turned_right(),
    {
        Rover { position: self.position, direction: self.direction.turn_right() }
    }

    /// A quarter turn counter-clockwise, on the spot.
    pub fn turn_left(self) -> (r: Rover)
        ensures
            r == self.turned_left(),
    {
        Rover { position: self.position, direction: self.direction.turn_left() }
    }

    /// Whether the cell one step ahead (or behind) lies on the `i32` grid.
    pub(crate) fn fits_step(r: Rover, ahead: bool) -> (b: bool)
        ensures
            b == r.can_step(ahead),
    {
        let d = Self::dir_to_vec(r.direction);
        let (x, y) = if ahead {
            (r.position.0 as i64 + d.0 as i64, r.position.1 as i64 + d.1 as i64)
        } else {
            (r.position.0 as i64 - d.0 as i64, r.position.1 as i64 - d.1 as i64)
        };
        i32::MIN as i64 <= x && x <= i32::MAX as i64 && i32::MIN as i64 <= y && y <= i32::MAX as i64
    }

    /// Whether every move that running the sequence would attempt stays on
    /// the `i32` grid, the condition under which `process_sequence` may run it.
    pub fn sequence_fits(self, sequence: &str, obstacles: &ObstacleSet) -> (b: bool)
        ensures
            b == run_fits(self, sequence@, obstacles@),
    {
        let mut chars = sequence.chars();
        let mut cur = self;
        loop
            invariant
                chars.obeys_prophetic_iter_laws(),
                chars.decrease() is Some,
                run_fits(self, sequence@, obstacles@) == run_fits(cur, chars.remaining(), obstacles@),
            decreases chars.decrease()->0,
        {
            let ghost rest = chars.remaining();
            match chars.next() {
                None => {
                    return true;
                },
                Some(c) => {
                    assert(rest.drop_first() == chars.remaining());
                    let next = if c == 'F' {
                        if !Self::fits_step(cur, true) {
                            return false;
                        }
                        cur.forward(obstacles)
                    } else if c == 'B' {
                        if !Self::fits_step(cur, false) {
                            return false;
                        }
                        cur.backward(obstacles)
                    } else if c == 'L' {
                        Ok(cur.turn_left())
                    } else if c == 'R' {
                        Ok(cur.turn_right())
                    } else {
                        return true;
                    };
                    match next {
                        Ok(n) => {
                            cur = n;
                        },
                        Err(_) => {
                            return true;
                        },
                    }
                },
            }
        }
    }

    /// Runs a command sequence (`F` forward, `B` backward, `L` and `R` turns).
    /// A blocked move stops it with `Err` of the rover where it stands; a
    /// character that is no command stops it with `Err` of the rover it
    /// started as.
    pub fn process_sequence(self, sequence: &str, obstacles: &ObstacleSet) -> (r: Result<Rover, Rover>)
        requires
            run_fits(self, sequence@, obstacles@),
        ensures
            r == sequence_result(self, sequence@, obstacles@),
            sequence@.len() == 0 ==> r == Ok::<Rover, Rover>(self),
    {
        let mut chars = sequence.chars();
        let mut cur = self;
        loop
            invariant
                chars.obeys_prophetic_iter_laws(),
                run(self, self, sequence@, obstacles@) == run(self, cur, chars.remaining(), obstacles@),
                run_fits(cur, chars.remaining(), obstacles@),
                chars.decrease() is Some,
            decreases chars.decrease()->0,
        {
            let ghost rest = chars.remaining();
            match chars.next() {
                None => {
                    return Ok(cur);
                },
                Some(c) => {
                    assert(rest.drop_first() == chars.remaining());
                    let next = match c {
                        'F' => cur.forward(obstacles),
                        'B' => cur.backward(obstacles),
                        'L' => Ok(cur.turn_left()),
                        'R' => Ok(cur.turn_right()),
                        _ => Err(self),
                    };
                    match next {
                        Ok(n) => {
                            cur = n;
                        },
                        Err(e) => {
                            return Err(e);
                        },
                    }
                },
            }
        }
    }
}

/// A move forward that went through is undone by a move backward, and the
/// other way round, as long as the cell that was left is not blocked.
pub proof fn lemma_move_round_trip(r: Rover, ahead: bool, obstacles: Set<Vec2D>)
    requires
        r.can_step(ahead),
        !obstacles.contains(r.position),
        r.step_result(ahead, obstacles) is Ok,
    ensures
        r.stepped(ahead).can_step(!ahead),
        r.stepped(ahead).step_result(!ahead, obstacles) == Ok::<Rover, Rover>(r),
{
    assert(r.stepped(ahead).stepped(!ahead) == r);
}

/// The empty sequence succeeds and leaves the rover as it was.
pub proof fn lemma_empty_sequence(r: Rover, obstacles: Set<Vec2D>)
    ensures
        sequence_result(r, Seq::<char>::empty(), obstacles) == Ok::<Rover, Rover>(r),
        run_fits(r, Seq::<char>::empty(), obstacles),
{
}

/// A character that is no command fails the sequence with the rover it
/// started as, unless a move before that character was blocked.
pub proof fn lemma_invalid_command(r: Rover, cmds: Seq<char>, i: int, obstacles: Set<Vec2D>)
    requires
        0 <= i < cmds.len(),
        !is_command(cmds[i]),
        sequence_result(r, cmds.take(i), obstacles) is Ok,
    ensures
        sequence_result(r, cmds, obstacles) == Err::<Rover, Rover>(r),
{
    lemma_run_invalid(r, r, cmds, i, obstacles);
}

proof fn lemma_run_invalid(start: Rover, cur: Rover, cmds: Seq<char>, i: int, obstacles: Set<Vec2D>)
    requires
        0 <= i < cmds.len(),
        !is_command(cmds[i]),
        run(start, cur, cmds.take(i), obstacles) is Ok,
    ensures
        run(start, cur, cmds, obstacles) == Err::<Rover, Rover>(start),
    decreases i,
{
    if i > 0 {
        assert(cmds.take(i)[0] == cmds[0]);
        assert(cmds.take(i).drop_first() =~= cmds.drop_first().take(i - 1));
        let next = cur.apply(cmds[0], obstacles)->Ok_0;
        lemma_run_invalid(start, next, cmds.drop_first(), i - 1, obstacles);
    }
}

/// Running a sequence with one more command at its end: where the sequence
/// succeeded, the outcome is that of the last command applied to its result.
pub proof fn lemma_run_push(start: Rover, cur: Rover, cmds: Seq<char>, c: char, obstacles: Set<Vec2D>)
    requires
        run(start, cur, cmds, obstacles) is Ok,
        is_command(c),
    ensures
        run(start, cur, cmds.push(c), obstacles) == run(start, cur, cmds, obstacles)->Ok_0.apply(
            c,
            obstacles,
        ),
        run_fits(cur, cmds, obstacles) && run(start, cur, cmds, obstacles)->Ok_0.command_fits(c)
            ==> run_fits(cur, cmds.push(c), obstacles),
    decreases cmds.len(),
{
    let longer = cmds.push(c);
    if cmds.len() == 0 {
        assert(longer.drop_first() =~= Seq::<char>::empty());
        let a = cur.apply(c, obstacles);
        if a is Ok {
            assert(run(start, a->Ok_0, longer.drop_first(), obstacles) == a);
            assert(run_fits(a->Ok_0, longer.drop_first(), obstacles));
        }
    } else {
        assert(longer[0] == cmds[0]);
        assert(longer.drop_first() =~= cmds.drop_first().push(c));
        let next = cur.apply(cmds[0], obstacles)->Ok_0;
        lemma_run_push(start, next, cmds.drop_first(), c, obstacles);
    }
}

} // verus!
