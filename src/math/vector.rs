//! Vectors of three coordinates.

use vstd::prelude::*;

verus! {

/// A vector in an orthonormal right-handed basis of space.
pub trait Vector3D<T>: Sized {
    /// The coordinates, in the order x, y, z.
    spec fn coords(&self) -> (T, T, T);

    fn new(x: T, y: T, z: T) -> (r: Self)
        ensures
            r.coords() == (x, y, z),
    ;

    fn x(&self) -> (r: T)
        ensures
            r == self.coords().0,
    ;

    fn y(&self) -> (r: T)
        ensures
            r == self.coords().1,
    ;

    fn z(&self) -> (r: T)
        ensures
            r == self.coords().2,
    ;
}

/// A vector stored as its three coordinates.
#[derive(Copy, Clone, Default, Debug)]
pub struct NumVector3D<T: Copy> {
    pub x: T,
    pub y: T,
    pub z: T,
}

impl<T: Copy> Vector3D<T> for NumVector3D<T> {
    open spec fn coords(&self) -> (T, T, T) {
        (self.x, self.y, self.z)
    }

    fn new(x: T, y: T, z: T) -> (r: Self) {
        NumVector3D { x, y, z }
    }

    fn x(&self) -> (r: T) {
        self.x
    }

    fn y(&self) -> (r: T) {
        self.y
    }

    fn z(&self) -> (r: T) {
        self.z
    }
}

} // verus!
