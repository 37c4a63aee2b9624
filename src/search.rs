use std::collections::{HashSet, VecDeque};
use cons_list::ConsList;
use vstd::prelude::*;
use vstd::set_lib::{lemma_int_range, lemma_len_subset, set_int_range};
use crate::obstacles::{cell_key, key_of, lemma_cell_key, ObstacleSet};
use crate::rover::{is_command, lemma_run_push, run, run_fits, sequence_result, Rover};
use crate::vec2d::Vec2D;

verus! {

broadcast use vstd::std_specs::hash::group_hash_axioms;

#[verifier::external_type_specification]
#[verifier::external_body]
#[verifier::reject_recursive_types(T)]
pub struct ExConsList<T>(ConsList<T>);

/// The commands held by a path list, the most recent one first.
pub uninterp spec fn path_items(l: ConsList<char>) -> Seq<char>;

/// Relies on `cons_list::ConsList::new`: a list with no items.
#[verifier::external_body]
fn empty_path() -> (r: ConsList<char>)
    ensures
        path_items(r) == Seq::<char>::empty(),
{
    ConsList::new()
}

/// Relies on `cons_list::ConsList::append`: a new list whose items are `c`
/// followed by the items of `l`, which is left as it is.
#[verifier::external_body]
fn prepend(l: &ConsList<char>, c: char) -> (r: ConsList<char>)
    ensures
        path_items(r) == seq![c] + path_items(*l),
{
    l.append(c)
}

/// Relies on `cons_list::ConsList::iter`: the items of the list, front first.
#[verifier::external_body]
fn path_to_vec(l: &ConsList<char>) -> (r: Vec<char>)
    ensures
        r@ == path_items(*l),
{
    l.iter().map(|c| *c).collect()
}

/// Relies on std's `FromIterator<char>` for `String`: the string of the
/// characters, in order.
#[verifier::external_body]
fn string_from_chars(v: Vec<char>) -> (r: String)
    ensures
        r@ == v@,
{
    v.into_iter().collect()
}

/// A sequence in reverse order.
pub open spec fn reversed(s: Seq<char>) -> Seq<char> {
    Seq::new(s.len(), |i: int| s[s.len() - 1 - i])
}

/// Whether `cmds` runs from `start` without a blocked move or a character
/// that is no command, every move staying on the `i32` grid.
pub open spec fn completes(start: Rover, cmds: Seq<char>, obstacles: Set<Vec2D>) -> bool {
    run_fits(start, cmds, obstacles) && sequence_result(start, cmds, obstacles) is Ok
}

/// Whether `cmds` completes from `start` and ends on `target`.
pub open spec fn leads_to(start: Rover, cmds: Seq<char>, target: Vec2D, obstacles: Set<Vec2D>) -> bool {
    completes(start, cmds, obstacles) && sequence_result(start, cmds, obstacles)->Ok_0.position == target
}

/// Whether some command sequence takes `start` to a rover standing on `target`.
pub open spec fn reaches(start: Rover, target: Vec2D, obstacles: Set<Vec2D>) -> bool {
    exists|cmds: Seq<char>| #[trigger] leads_to(start, cmds, target, obstacles)
}

/// Bound on the magnitude of a search state's key.
pub open spec fn key_bound() -> int {
    0x2_0000_0000_0000_0000
}

/// The integer under which a rover state is recorded as explored.
spec fn state_key(r: Rover) -> int {
    cell_key(r.position) * 4 + r.direction.index()
}

proof fn lemma_state_key(a: Rover, b: Rover)
    ensures
        -key_bound() <= state_key(a) < key_bound(),
        state_key(a) == state_key(b) ==> a == b,
{
    lemma_cell_key(a.position, b.position);
    let (ka, kb, ia, ib) = (cell_key(a.position), cell_key(b.position), a.direction.index(), b.direction.index());
    assert(ka * 4 + ia == kb * 4 + ib ==> ka == kb && ia == ib) by (nonlinear_arith)
        requires
            0 <= ia < 4,
            0 <= ib < 4,
    ;
    lemma_cell_key(a.position, a.position);
}

fn rover_key(r: Rover) -> (k: i128)
    ensures
        k == state_key(r),
{
    proof {
        lemma_state_key(r, r);
    }
    let d: i128 = match r.direction {
        crate::direction::Direction::North => 0,
        crate::direction::Direction::East => 1,
        crate::direction::Direction::South => 2,
        crate::direction::Direction::West => 3,
    };
    (key_of(r.position) as i128) * 4 + d
}

spec fn seen(vis: Set<i128>, v: Rover) -> bool {
    vis.contains(state_key(v) as i128)
}

spec fn edge(v: Rover, c: char, obstacles: Set<Vec2D>) -> bool {
    is_command(c) && v.command_fits(c) && v.apply(c, obstacles) is Ok
}

spec fn queued(q: Seq<(Rover, ConsList<char>)>, v: Rover) -> bool {
    exists|j: int| 0 <= j < q.len() && (#[trigger] q[j]).0 == v
}

spec fn plen(e: (Rover, ConsList<char>)) -> int {
    path_items(e.1).len() as int
}

spec fn queued_within(q: Seq<(Rover, ConsList<char>)>, v: Rover, bound: int) -> bool {
    exists|j: int| 0 <= j < q.len() && (#[trigger] q[j]).0 == v && plen(q[j]) <= bound
}

/// A sequence that completes has a prefix one command shorter that completes,
/// and its last command is a step that goes through.
proof fn lemma_run_prefix(start: Rover, cur: Rover, cmds: Seq<char>, obstacles: Set<Vec2D>)
    requires
        cmds.len() > 0,
        run_fits(cur, cmds, obstacles),
        run(start, cur, cmds, obstacles) is Ok,
    ensures
        run_fits(cur, cmds.drop_last(), obstacles),
        run(start, cur, cmds.drop_last(), obstacles) is Ok,
        edge(run(start, cur, cmds.drop_last(), obstacles)->Ok_0, cmds.last(), obstacles),
        run(start, cur, cmds.drop_last(), obstacles)->Ok_0.apply(cmds.last(), obstacles) == run(
            start,
            cur,
            cmds,
            obstacles,
        ),
    decreases cmds.len(),
{
    if cmds.len() == 1 {
        assert(cmds.drop_last() =~= Seq::<char>::empty());
        assert(cmds.drop_first() =~= Seq::<char>::empty());
    } else {
        let next = cur.apply(cmds[0], obstacles)->Ok_0;
        assert(cmds.drop_last()[0] == cmds[0]);
        assert(cmds.drop_first().drop_last() =~= cmds.drop_last().drop_first());
        lemma_run_prefix(start, next, cmds.drop_first(), obstacles);
    }
}

spec fn path_ok(start: Rover, e: (Rover, ConsList<char>), obstacles: Set<Vec2D>) -> bool {
    &&& run(start, start, reversed(path_items(e.1)), obstacles) == Ok::<Rover, Rover>(e.0)
    &&& run_fits(start, reversed(path_items(e.1)), obstacles)
}

proof fn lemma_extend(start: Rover, e: (Rover, ConsList<char>), c: char, l: ConsList<char>, obstacles: Set<Vec2D>)
    requires
        path_ok(start, e, obstacles),
        edge(e.0, c, obstacles),
        path_items(l) == seq![c] + path_items(e.1),
    ensures
        path_ok(start, (e.0.apply(c, obstacles)->Ok_0, l), obstacles),
{
    let items = path_items(e.1);
    assert(reversed(seq![c] + items) =~= reversed(items).push(c));
    lemma_run_push(start, start, reversed(items), c, obstacles);
}

/// From an explored state, with every step out of an explored state leading
/// to an explored state, no run reaches the target.
proof fn lemma_no_escape(
    start: Rover,
    cur: Rover,
    cmds: Seq<char>,
    vis: Set<i128>,
    target: Vec2D,
    obstacles: Set<Vec2D>,
)
    requires
        seen(vis, cur),
        forall|v: Rover, c: char| #![trigger seen(vis, v), edge(v, c, obstacles)]
            seen(vis, v) && edge(v, c, obstacles) ==> seen(vis, v.apply(c, obstacles)->Ok_0),
        forall|v: Rover| #[trigger] seen(vis, v) ==> v.position != target,
        run_fits(cur, cmds, obstacles),
        run(start, cur, cmds, obstacles) is Ok,
    ensures
        run(start, cur, cmds, obstacles)->Ok_0.position != target,
    decreases cmds.len(),
{
    if cmds.len() > 0 {
        let c = cmds[0];
        assert(edge(cur, c, obstacles));
        lemma_no_escape(start, cur.apply(c, obstacles)->Ok_0, cmds.drop_first(), vis, target, obstacles);
    }
}

proof fn lemma_queued_pop(q: Seq<(Rover, ConsList<char>)>, v: Rover)
    requires
        queued(q, v),
    ensures
        v == q[0].0 || queued(q.subrange(1, q.len() as int), v),
{
    let j = choose|j: int| 0 <= j < q.len() && (#[trigger] q[j]).0 == v;
    if j > 0 {
        assert(q.subrange(1, q.len() as int)[j - 1] == q[j]);
    }
}

proof fn lemma_queued_push(q: Seq<(Rover, ConsList<char>)>, e: (Rover, ConsList<char>), v: Rover)
    requires
        queued(q, v) || v == e.0,
    ensures
        queued(q.push(e), v),
{
    if v == e.0 {
        assert(q.push(e)[q.len() as int] == e);
    } else {
        let j = choose|j: int| 0 <= j < q.len() && (#[trigger] q[j]).0 == v;
        assert(q.push(e)[j] == q[j]);
    }
}

proof fn lemma_all_ok_push(
    start: Rover,
    q: Seq<(Rover, ConsList<char>)>,
    e: (Rover, ConsList<char>),
    obstacles: Set<Vec2D>,
)
    requires
        forall|j: int| 0 <= j < q.len() ==> path_ok(start, #[trigger] q[j], obstacles),
        path_ok(start, e, obstacles),
    ensures
        forall|j: int| 0 <= j < q.push(e).len() ==> path_ok(start, #[trigger] q.push(e)[j], obstacles),
{
    assert forall|j: int| 0 <= j < q.push(e).len() implies path_ok(start, #[trigger] q.push(e)[j], obstacles) by {
        if j < q.len() {
            assert(q.push(e)[j] == q[j]);
        }
    }
}

proof fn lemma_queued_prefix(q1: Seq<(Rover, ConsList<char>)>, q2: Seq<(Rover, ConsList<char>)>, v: Rover)
    requires
        queued(q1, v),
        q1.len() <= q2.len(),
        forall|j: int| 0 <= j < q1.len() ==> q2[j] == q1[j],
    ensures
        queued(q2, v),
{
    let j = choose|j: int| 0 <= j < q1.len() && (#[trigger] q1[j]).0 == v;
    assert(q2[j] == q1[j]);
}

impl Rover {
    /// A shortest command sequence that takes this rover to a rover standing
    /// on `target`, found by breadth-first search over rover states; among
    /// states one step apart, the search tries `L`, `R`, `F`, `B` in that
    /// order. The empty string where no sequence reaches `target`. Moves off
    /// the `i32` grid are not explored.
    pub fn get_directions(&self, target: Vec2D, obstacles: &ObstacleSet) -> (r: String)
        ensures
            reaches(*self, target, obstacles@) ==> leads_to(*self, r@, target, obstacles@),
            !reaches(*self, target, obstacles@) ==> r@.len() == 0,
            forall|cmds: Seq<char>| #[trigger]
                leads_to(*self, cmds, target, obstacles@) ==> r@.len() <= cmds.len(),
    {
        let ghost obs = obstacles@;
        let ghost range = set_int_range(-key_bound(), key_bound());
        let start = *self;
        let mut q: VecDeque<(Rover, ConsList<char>)> = VecDeque::new();
        let mut visited: HashSet<i128> = HashSet::new();
        let ghost mut explored: Set<int> = Set::empty();
        let ghost mut lvl: int = 0;
        q.push_back((start, empty_path()));
        proof {
            assert(reversed(Seq::<char>::empty()) =~= Seq::<char>::empty());
            assert(q@[0].0 == start);
            assert forall|cmds: Seq<char>| #[trigger] completes(start, cmds, obs) && cmds.len() <= lvl
                implies queued_within(q@, sequence_result(start, cmds, obs)->Ok_0, cmds.len() as int) by {
                assert(q@[0].0 == sequence_result(start, cmds, obs)->Ok_0);
            }
            lemma_int_range(-key_bound(), key_bound());
        }
        loop
            invariant
                obs == obstacles@,
                start == *self,
                range == set_int_range(-key_bound(), key_bound()),
                range.finite(),
                range.len() == 2 * key_bound(),
                forall|j: int| 0 <= j < q@.len() ==> path_ok(start, #[trigger] q@[j], obs),
                forall|v: Rover, c: char| #![trigger seen(visited@, v), edge(v, c, obs)]
                    seen(visited@, v) && edge(v, c, obs) ==> seen(visited@, v.apply(c, obs)->Ok_0)
                        || queued(q@, v.apply(c, obs)->Ok_0),
                forall|v: Rover| #[trigger] seen(visited@, v) ==> v.position != target,
                seen(visited@, start) || queued(q@, start),
                forall|k: i128| #[trigger] visited@.contains(k) <==> explored.contains(k as int),
                explored.subset_of(range),
                explored.finite(),
                lvl >= 0,
                forall|j: int| 0 <= j < q@.len() ==> lvl <= #[trigger] plen(q@[j]) <= lvl + 1,
                forall|i: int, j: int| 0 <= i <= j < q@.len() ==> plen(#[trigger] q@[i]) <= plen(#[trigger] q@[j]),
                forall|cmds: Seq<char>| #[trigger] completes(start, cmds, obs) && cmds.len() <= lvl
                    ==> seen(visited@, sequence_result(start, cmds, obs)->Ok_0)
                        || queued_within(q@, sequence_result(start, cmds, obs)->Ok_0, cmds.len() as int),
            decreases 2 * key_bound() - explored.len(), q@.len(),
        {
            let ghost q0 = q@;
            match q.pop_front() {
                None => {
                    proof {
                        if queued(q0, start) {
                            let j = choose|j: int| 0 <= j < q0.len() && (#[trigger] q0[j]).0 == start;
                        }
                        assert forall|cmds: Seq<char>|
                            #[trigger] run_fits(start, cmds, obs) && sequence_result(start, cmds, obs) is Ok
                            implies sequence_result(start, cmds, obs)->Ok_0.position != target by {
                            assert forall|v: Rover, c: char| #![trigger seen(visited@, v), edge(v, c, obs)]
                                seen(visited@, v) && edge(v, c, obs) implies seen(visited@, v.apply(c, obs)->Ok_0) by {
                                if queued(q0, v.apply(c, obs)->Ok_0) {
                                    let j = choose|j: int| 0 <= j < q0.len() && (#[trigger] q0[j]).0 == v.apply(c, obs)->Ok_0;
                                }
                            }
                            lemma_no_escape(start, start, cmds, visited@, target, obs);
                        }
                    }
                    return String::new();
                },
                Some(e) => {
                    let ghost q1 = q@;
                    let ghost old_lvl = lvl;
                    proof {
                        assert(path_ok(start, q0[0], obs));
                        assert forall|j: int| 0 <= j < q1.len() implies path_ok(start, #[trigger] q1[j], obs) by {
                            assert(q1[j] == q0[j + 1]);
                        }
                    }
                    let (rover, path) = e;
                    if rover.position == target {
                        let items = path_to_vec(&path);
                        let n = items.len();
                        let mut out: Vec<char> = Vec::new();
                        let mut j: usize = 0;
                        while j < n
                            invariant
                                n == items@.len(),
                                j <= n,
                                out@ =~= Seq::new(j as nat, |i: int| items@[n - 1 - i]),
                            decreases n - j,
                        {
                            out.push(items[n - 1 - j]);
                            j += 1;
                        }
                        proof {
                            let w = reversed(path_items(path));
                            assert(out@ =~= w);
                            assert(run_fits(start, w, obs));
                            assert(leads_to(start, w, target, obs));
                            assert forall|cmds: Seq<char>| #[trigger] leads_to(start, cmds, target, obs)
                                implies w.len() <= cmds.len() by {
                                if cmds.len() < w.len() {
                                    assert(completes(start, cmds, obs));
                                    let end = sequence_result(start, cmds, obs)->Ok_0;
                                    if !seen(visited@, end) {
                                        let j = choose|j: int| 0 <= j < q0.len() && (#[trigger] q0[j]).0 == end
                                            && plen(q0[j]) <= cmds.len();
                                        assert(plen(q0[0]) <= plen(q0[j]));
                                    }
                                }
                            }
                        }
                        return string_from_chars(out);
                    }
                    let k = rover_key(rover);
                    let ghost old_vis = visited@;
                    proof {
                        lvl = plen(q0[0]);
                    }
                    if visited.insert(k) {
                        proof {
                            lemma_state_key(rover, rover);
                            explored = explored.insert(k as int);
                            lemma_len_subset(explored, range);
                            assert forall|v: Rover| #[trigger] seen(visited@, v) implies v.position != target by {
                                lemma_state_key(v, rover);
                                if state_key(v) != state_key(rover) {
                                    assert(seen(old_vis, v));
                                }
                            }
                        }
                        let ghost e0 = (rover, path);
                        let left = rover.turn_left();
                        let pl = prepend(&path, 'L');
                        proof {
                            lemma_extend(start, e0, 'L', pl, obs);
                            lemma_all_ok_push(start, q@, (left, pl), obs);
                        }
                        q.push_back((left, pl));
                        let right = rover.turn_right();
                        let pr = prepend(&path, 'R');
                        proof {
                            lemma_extend(start, e0, 'R', pr, obs);
                            lemma_all_ok_push(start, q@, (right, pr), obs);
                        }
                        q.push_back((right, pr));
                        let ghost q2 = q@;
                        if Rover::fits_step(rover, true) {
                            if let Ok(n) = rover.forward(obstacles) {
                                let pf = prepend(&path, 'F');
                                proof {
                                    lemma_extend(start, e0, 'F', pf, obs);
                                    lemma_all_ok_push(start, q@, (n, pf), obs);
                                }
                                q.push_back((n, pf));
                            }
                        }
                        let ghost q3 = q@;
                        if Rover::fits_step(rover, false) {
                            if let Ok(n) = rover.backward(obstacles) {
                                let pb = prepend(&path, 'B');
                                proof {
                                    lemma_extend(start, e0, 'B', pb, obs);
                                    lemma_all_ok_push(start, q@, (n, pb), obs);
                                }
                                q.push_back((n, pb));
                            }
                        }
                        proof {
                            assert(q@[q1.len() as int] == q2[q1.len() as int]);
                            assert(q@[q1.len() as int + 1] == q2[q1.len() as int + 1]);
                            assert forall|j: int| 0 <= j < q1.len() implies q@[j] == q1[j] by {
                                assert(q2[j] == q1[j]);
                                assert(q3[j] == q2[j]);
                            }
                            assert forall|j: int| q1.len() <= j < q@.len() implies plen(#[trigger] q@[j]) == lvl + 1 by {
                                if j < q2.len() {
                                    assert(q3[j] == q2[j]);
                                } else if j < q3.len() {
                                    assert(q@[j] == q3[j]);
                                }
                            }
                            if rover.command_fits('F') && rover.apply('F', obs) is Ok {
                                assert(q3[q2.len() as int] == q@[q2.len() as int]);
                                assert(q@[q2.len() as int].0 == rover.apply('F', obs)->Ok_0);
                            }
                            if rover.command_fits('B') && rover.apply('B', obs) is Ok {
                                assert(q@[q3.len() as int].0 == rover.apply('B', obs)->Ok_0);
                            }
                            assert forall|v: Rover, c: char| #![trigger seen(visited@, v), edge(v, c, obs)]
                                seen(visited@, v) && edge(v, c, obs) implies seen(visited@, v.apply(c, obs)->Ok_0)
                                || queued(q@, v.apply(c, obs)->Ok_0) by {
                                let nb = v.apply(c, obs)->Ok_0;
                                lemma_state_key(v, rover);
                                lemma_state_key(nb, rover);
                                if v == rover {
                                    if c == 'L' {
                                        assert(q@[q1.len() as int].0 == nb);
                                    } else if c == 'R' {
                                        assert(q@[q1.len() as int + 1].0 == nb);
                                    } else if c == 'F' {
                                        assert(q@[q2.len() as int].0 == nb);
                                    } else {
                                        assert(q@[q3.len() as int].0 == nb);
                                    }
                                } else {
                                    assert(seen(old_vis, v));
                                    if !seen(old_vis, nb) {
                                        assert(queued(q0, nb));
                                        lemma_queued_pop(q0, nb);
                                        if nb != rover {
                                            lemma_queued_prefix(q1, q@, nb);
                                        }
                                    }
                                }
                            }
                            lemma_state_key(start, rover);
                            if !seen(old_vis, start) {
                                lemma_queued_pop(q0, start);
                                if start != rover {
                                    lemma_queued_prefix(q1, q@, start);
                                }
                            }
                        }
                    } else {
                        proof {
                            assert(visited@ =~= old_vis);
                            assert forall|v: Rover, c: char| #![trigger seen(visited@, v), edge(v, c, obs)]
                                seen(visited@, v) && edge(v, c, obs) implies seen(visited@, v.apply(c, obs)->Ok_0)
                                || queued(q@, v.apply(c, obs)->Ok_0) by {
                                let nb = v.apply(c, obs)->Ok_0;
                                lemma_state_key(nb, rover);
                                if !seen(visited@, nb) {
                                    lemma_queued_pop(q0, nb);
                                }
                            }
                            lemma_state_key(start, rover);
                            if !seen(visited@, start) {
                                lemma_queued_pop(q0, start);
                            }
                        }
                    }
                    proof {
                        assert(plen(q0[0]) <= old_lvl + 1);
                        assert(seen(visited@, rover));
                        assert(forall|v: Rover| seen(old_vis, v) ==> #[trigger] seen(visited@, v));
                        assert(forall|j: int| 0 <= j < q1.len() ==> q@[j] == q1[j]);
                        assert forall|cmds: Seq<char>| #[trigger] completes(start, cmds, obs) && cmds.len() <= lvl
                            implies seen(visited@, sequence_result(start, cmds, obs)->Ok_0)
                            || queued_within(q@, sequence_result(start, cmds, obs)->Ok_0, cmds.len() as int) by {
                            let w = sequence_result(start, cmds, obs)->Ok_0;
                            if cmds.len() <= old_lvl {
                                if !seen(old_vis, w) {
                                    let j = choose|j: int| 0 <= j < q0.len() && (#[trigger] q0[j]).0 == w
                                        && plen(q0[j]) <= cmds.len();
                                    if j > 0 {
                                        assert(q1[j - 1] == q0[j]);
                                        assert(q@[j - 1] == q1[j - 1]);
                                    }
                                }
                            } else {
                                assert(lvl <= old_lvl + 1);
                                let p = cmds.drop_last();
                                lemma_run_prefix(start, start, cmds, obs);
                                assert(completes(start, p, obs));
                                let u = sequence_result(start, p, obs)->Ok_0;
                                if !seen(old_vis, u) {
                                    let j = choose|j: int| 0 <= j < q0.len() && (#[trigger] q0[j]).0 == u
                                        && plen(q0[j]) <= p.len();
                                    assert(plen(q0[0]) <= plen(q0[j]));
                                }
                                assert(seen(old_vis, u) && edge(u, cmds.last(), obs));
                                if !seen(old_vis, w) {
                                    assert(queued(q0, w));
                                    let j = choose|j: int| 0 <= j < q0.len() && (#[trigger] q0[j]).0 == w;
                                    if j > 0 {
                                        assert(q1[j - 1] == q0[j]);
                                        assert(q@[j - 1] == q1[j - 1]);
                                        assert(plen(q@[j - 1]) <= lvl + 1);
                                    }
                                }
                            }
                        }
                    }
                },
            }
        }
    }
}

/// Following a route with the properties that `get_directions` promises, for a
/// reachable target, completes and ends on the target; the route is empty
/// exactly when the target cannot be reached or the rover already stands on it.
pub proof fn lemma_route_round_trip(start: Rover, target: Vec2D, obstacles: Set<Vec2D>, route: Seq<char>)
    requires
        reaches(start, target, obstacles) ==> leads_to(start, route, target, obstacles),
        !reaches(start, target, obstacles) ==> route.len() == 0,
        forall|cmds: Seq<char>| #[trigger]
            leads_to(start, cmds, target, obstacles) ==> route.len() <= cmds.len(),
    ensures
        reaches(start, target, obstacles) ==> {
            &&& run_fits(start, route, obstacles)
            &&& sequence_result(start, route, obstacles) is Ok
            &&& sequence_result(start, route, obstacles)->Ok_0.position == target
        },
        route.len() == 0 <==> !reaches(start, target, obstacles) || start.position == target,
{
    if start.position == target {
        let empty = Seq::<char>::empty();
        assert(leads_to(start, empty, target, obstacles));
    }
    if reaches(start, target, obstacles) && route.len() == 0 {
        assert(sequence_result(start, route, obstacles) == Ok::<Rover, Rover>(start));
    }
}

} // verus!
