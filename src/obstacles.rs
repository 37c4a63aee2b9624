use std::collections::HashMap;
use vstd::prelude::*;
use crate::vec2d::Vec2D;

verus! {

broadcast use vstd::std_specs::hash::group_hash_axioms;

/// The number of distinct values of the second coordinate.
pub const ROW_SPAN: i64 = 4294967296;

/// The integer under which a cell is stored: the first coordinate picks a
/// block of `ROW_SPAN` keys, the second one a key in it.
pub open spec fn cell_key(v: Vec2D) -> int {
    v.0 * ROW_SPAN + (v.1 - i32::MIN)
}

/// Distinct cells have distinct keys, and every key fits in an `i64`.
pub proof fn lemma_cell_key(a: Vec2D, b: Vec2D)
    ensures
        i64::MIN <= cell_key(a) <= i64::MAX,
        cell_key(a) == cell_key(b) ==> a == b,
{
    let (ax, ay, bx, by) = (a.0 as int, a.1 - i32::MIN, b.0 as int, b.1 - i32::MIN);
    assert(i64::MIN <= ax * 4294967296 + ay <= i64::MAX) by (nonlinear_arith)
        requires
            -2147483648 <= ax < 2147483648,
            0 <= ay < 4294967296,
    ;
    assert(ax * 4294967296 + ay == bx * 4294967296 + by ==> ax == bx && ay == by)
        by (nonlinear_arith)
        requires
            0 <= ay < 4294967296,
            0 <= by < 4294967296,
    ;
}

/// The key of a cell, computed.
pub(crate) fn key_of(v: Vec2D) -> (k: i64)
    ensures
        k == cell_key(v),
{
    proof {
        lemma_cell_key(v, v);
    }
    (v.0 as i64) * ROW_SPAN + ((v.1 as i64) - (i32::MIN as i64))
}

/// A set of grid cells that no rover may occupy.
pub struct ObstacleSet {
    cells: HashMap<i64, ()>,
}

impl View for ObstacleSet {
    type V = Set<Vec2D>;

    closed spec fn view(&self) -> Set<Vec2D> {
        Set::new(|v: Vec2D| self.cells@.contains_key(cell_key(v) as i64))
    }
}

impl ObstacleSet {
    /// An empty set of cells.
    pub fn new() -> (r: ObstacleSet)
        ensures
            r@ == Set::<Vec2D>::empty(),
    {
        let r = ObstacleSet { cells: HashMap::new() };
        assert(r@ =~= Set::<Vec2D>::empty());
        r
    }

    /// The set holding exactly the given cells.
    pub fn from_cells(cells: &[Vec2D]) -> (r: ObstacleSet)
        ensures
            r@ == cells@.to_set(),
    {
        let mut r = ObstacleSet::new();
        let mut i: usize = 0;
        while i < cells.len()
            invariant
                i <= cells@.len(),
                r@ == cells@.take(i as int).to_set(),
            decreases cells@.len() - i,
        {
            r.insert(cells[i]);
            assert(cells@.take(i + 1) =~= cells@.take(i as int).push(cells@[i as int]));
            proof {
                cells@.take(i as int).lemma_push_to_set_commute(cells@[i as int]);
            }
            i += 1;
        }
        assert(cells@.take(cells@.len() as int) =~= cells@);
        r
    }

    /// Whether the cell is in the set.
    pub fn contains(&self, v: Vec2D) -> (r: bool)
        ensures
            r == self@.contains(v),
    {
        self.cells.contains_key(&key_of(v))
    }

    /// Adds a cell.
    pub fn insert(&mut self, v: Vec2D)
        ensures
            final(self)@ == old(self)@.insert(v),
    {
        let k = key_of(v);
        self.cells.insert(k, ());
        proof {
            assert forall|w: Vec2D| #[trigger] final(self)@.contains(w) == old(self)@.insert(v).contains(w) by {
                lemma_cell_key(w, v);
            }
        }
        assert(final(self)@ =~= old(self)@.insert(v));
    }

    /// Takes a cell out.
    pub fn remove(&mut self, v: Vec2D)
        ensures
            final(self)@ == old(self)@.remove(v),
    {
        let k = key_of(v);
        self.cells.remove(&k);
        proof {
            assert forall|w: Vec2D| #[trigger] final(self)@.contains(w) == old(self)@.remove(v).contains(w) by {
                lemma_cell_key(w, v);
            }
        }
        assert(final(self)@ =~= old(self)@.remove(v));
    }

    /// A separate set with the same cells.
    pub fn copy(&self) -> (r: ObstacleSet)
        ensures
            r@ == self@,
    {
        ObstacleSet { cells: self.cells.clone() }
    }
}

} // verus!
