use vstd::prelude::*;
use crate::obstacles::ObstacleSet;
use crate::rover::Rover;
use crate::vec2d::Vec2D;

verus! {

/// One rover's command within a fleet step: a blocked move, or a character
/// that is no command, leaves the rover as it is.
pub open spec fn fleet_command(r: Rover, c: char, occupied: Set<Vec2D>) -> Rover {
    if c == 'F' {
        match r.step_result(true, occupied) {
            Ok(n) => n,
            Err(n) => n,
        }
    } else if c == 'B' {
        match r.step_result(false, occupied) {
            Ok(n) => n,
            Err(n) => n,
        }
    } else if c == 'L' {
        r.turned_left()
    } else if c == 'R' {
        r.turned_right()
    } else {
        r
    }
}

/// The rovers after each took its command in turn, starting from the cells
/// `occupied`: each frees its own cell, moves against what is occupied, and
/// occupies the cell it ends on.
pub open spec fn fleet_from(rovers: Seq<Rover>, cmds: Seq<char>, occupied: Set<Vec2D>) -> Seq<Rover>
    decreases rovers.len(),
{
    if rovers.len() == 0 || cmds.len() == 0 {
        Seq::empty()
    } else {
        let freed = occupied.remove(rovers[0].position);
        let moved = fleet_command(rovers[0], cmds[0], freed);
        seq![moved] + fleet_from(rovers.drop_first(), cmds.drop_first(), freed.insert(moved.position))
    }
}

/// The obstacles together with the cells of the first `n` rovers.
pub open spec fn occupied_by(rovers: Seq<Rover>, n: int, obstacles: Set<Vec2D>) -> Set<Vec2D> {
    obstacles.union(Set::new(|p: Vec2D| exists|j: int| 0 <= j < n && (#[trigger] rovers[j]).position == p))
}

/// The outcome of one lock-step move of the whole fleet.
pub open spec fn fleet_result(rovers: Seq<Rover>, cmds: Seq<char>, obstacles: Set<Vec2D>) -> Seq<Rover> {
    fleet_from(rovers, cmds, occupied_by(rovers, rovers.len() as int, obstacles))
}

impl Rover {
    /// Gives each rover its command, in order, one rover at a time. A rover's
    /// move is blocked by an obstacle, by a rover that has not moved yet, or by
    /// the cell a rover before it moved to.
    pub fn move_all(rovers: &[Rover], commands: &[char], obstacles: &ObstacleSet) -> (r: Vec<Rover>)
        requires
            rovers@.len() == commands@.len(),
            forall|i: int| 0 <= i < rovers@.len() ==> (#[trigger] rovers@[i]).command_fits(commands@[i]),
        ensures
            r@ == fleet_result(rovers@, commands@, obstacles@),
    {
        let mut with_rover = obstacles.copy();
        let mut i: usize = 0;
        while i < rovers.len()
            invariant
                i <= rovers@.len(),
                with_rover@ == occupied_by(rovers@, i as int, obstacles@),
            decreases rovers@.len() - i,
        {
            with_rover.insert(rovers[i].position);
            assert(with_rover@ =~= occupied_by(rovers@, i + 1, obstacles@)) by {
                assert forall|p: Vec2D| #[trigger] with_rover@.contains(p) == occupied_by(rovers@, i + 1, obstacles@).contains(p) by {
                    if p == rovers@[i as int].position {
                        assert(rovers@[i as int].position == p);
                    }
                    if occupied_by(rovers@, i + 1, obstacles@).contains(p) && !obstacles@.contains(p) {
                        let j = choose|j: int| 0 <= j < i + 1 && (#[trigger] rovers@[j]).position == p;
                        if j < i {
                            assert(occupied_by(rovers@, i as int, obstacles@).contains(p));
                        }
                    }
                }
            }
            i += 1;
        }
        let ghost all = fleet_result(rovers@, commands@, obstacles@);
        let mut result: Vec<Rover> = Vec::new();
        assert(rovers@.skip(0) =~= rovers@);
        assert(commands@.skip(0) =~= commands@);
        assert(result@ + all =~= all);
        let mut i: usize = 0;
        while i < rovers.len()
            invariant
                i <= rovers@.len(),
                rovers@.len() == commands@.len(),
                forall|j: int| 0 <= j < rovers@.len() ==> (#[trigger] rovers@[j]).command_fits(commands@[j]),
                all == fleet_result(rovers@, commands@, obstacles@),
                result@ + fleet_from(rovers@.skip(i as int), commands@.skip(i as int), with_rover@) == all,
            decreases rovers@.len() - i,
        {
            let r = rovers[i];
            let c = commands[i];
            with_rover.remove(r.position);
            let rover = if c == 'F' {
                match r.forward(&with_rover) {
                    Ok(res) => res,
                    Err(res) => res,
                }
            } else if c == 'B' {
                match r.backward(&with_rover) {
                    Ok(res) => res,
                    Err(res) => res,
                }
            } else if c == 'L' {
                r.turn_left()
            } else if c == 'R' {
                r.turn_right()
            } else {
                r
            };
            let ghost freed = with_rover@;
            with_rover.insert(rover.position);
            result.push(rover);
            proof {
                let rs = rovers@.skip(i as int);
                let cs = commands@.skip(i as int);
                assert(rs[0] == r);
                assert(cs[0] == c);
                assert(rs.drop_first() =~= rovers@.skip(i + 1));
                assert(cs.drop_first() =~= commands@.skip(i + 1));
                assert(rover == fleet_command(r, c, freed));
                assert(result@ + fleet_from(rovers@.skip(i + 1), commands@.skip(i + 1), with_rover@)
                    =~= all);
            }
            i += 1;
        }
        assert(rovers@.skip(i as int).len() == 0);
        assert(result@ =~= all);
        result
    }
}

} // verus!
