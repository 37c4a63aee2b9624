use vstd::prelude::*;

verus! {

/// An integer vector in the plane, used both as a grid cell and as a displacement.
#[derive(Clone, Copy, Debug, PartialEq, Eq, Hash, Structural)]
pub struct Vec2D(pub i32, pub i32);

/// Whether an integer fits in an `i32`.
pub open spec fn fits_i32(v: int) -> bool {
    i32::MIN <= v <= i32::MAX
}

impl Vec2D {
    /// Componentwise sum.
    pub fn add(self, rhs: Vec2D) -> (r: Vec2D)
        requires
            fits_i32(self.0 + rhs.0),
            fits_i32(self.1 + rhs.1),
        ensures
            r.0 == self.0 + rhs.0,
            r.1 == self.1 + rhs.1,
    {
        Vec2D(self.0 + rhs.0, self.1 + rhs.1)
    }

    /// Componentwise difference.
    pub fn sub(self, rhs: Vec2D) -> (r: Vec2D)
        requires
            fits_i32(self.0 - rhs.0),
            fits_i32(self.1 - rhs.1),
        ensures
            r.0 == self.0 - rhs.0,
            r.1 == self.1 - rhs.1,
    {
        Vec2D(self.0 - rhs.0, self.1 - rhs.1)
    }
}

} // verus!
