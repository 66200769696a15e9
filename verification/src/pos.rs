//! Unsigned 3-axis coordinate of a voxel inside the cube an octree spans.

use vstd::prelude::*;

verus! {

/// A position in the volume of an octree, one unsigned 8-bit value per axis.
#[derive(Clone, Copy, Debug, Default, Eq, Hash, Ord, PartialEq, PartialOrd)]
pub struct PosU8 {
    pub x: u8,
    pub y: u8,
    pub z: u8,
}

impl PosU8 {
    pub fn new(x: u8, y: u8, z: u8) -> (p: Self)
        ensures
            p == (PosU8 { x, y, z }),
    {
        PosU8 { x, y, z }
    }

    pub fn plus_x(&self) -> (p: Self)
        requires
            self.x < 255,
        ensures
            p == (PosU8 { x: (self.x + 1) as u8, y: self.y, z: self.z }),
    {
        PosU8 { x: self.x + 1, y: self.y, z: self.z }
    }

    pub fn minus_x(&self) -> (p: Self)
        requires
            self.x > 0,
        ensures
            p == (PosU8 { x: (self.x - 1) as u8, y: self.y, z: self.z }),
    {
        PosU8 { x: self.x - 1, y: self.y, z: self.z }
    }

    pub fn plus_y(&self) -> (p: Self)
        requires
            self.y < 255,
        ensures
            p == (PosU8 { x: self.x, y: (self.y + 1) as u8, z: self.z }),
    {
        PosU8 { x: self.x, y: self.y + 1, z: self.z }
    }

    pub fn minus_y(&self) -> (p: Self)
        requires
            self.y > 0,
        ensures
            p == (PosU8 { x: self.x, y: (self.y - 1) as u8, z: self.z }),
    {
        PosU8 { x: self.x, y: self.y - 1, z: self.z }
    }

    pub fn plus_z(&self) -> (p: Self)
        requires
            self.z < 255,
        ensures
            p == (PosU8 { x: self.x, y: self.y, z: (self.z + 1) as u8 }),
    {
        PosU8 { x: self.x, y: self.y, z: self.z + 1 }
    }

    pub fn minus_z(&self) -> (p: Self)
        requires
            self.z > 0,
        ensures
            p == (PosU8 { x: self.x, y: self.y, z: (self.z - 1) as u8 }),
    {
        PosU8 { x: self.x, y: self.y, z: self.z - 1 }
    }

    pub fn plus_xy(&self) -> (p: Self)
        requires
            self.x < 255,
            self.y < 255,
        ensures
            p == (PosU8 { x: (self.x + 1) as u8, y: (self.y + 1) as u8, z: self.z }),
    {
        PosU8 { x: self.x + 1, y: self.y + 1, z: self.z }
    }

    pub fn minus_xy(&self) -> (p: Self)
        requires
            self.x > 0,
            self.y > 0,
        ensures
            p == (PosU8 { x: (self.x - 1) as u8, y: (self.y - 1) as u8, z: self.z }),
    {
        PosU8 { x: self.x - 1, y: self.y - 1, z: self.z }
    }

    pub fn plus_xz(&self) -> (p: Self)
        requires
            self.x < 255,
            self.z < 255,
        ensures
            p == (PosU8 { x: (self.x + 1) as u8, y: self.y, z: (self.z + 1) as u8 }),
    {
        PosU8 { x: self.x + 1, y: self.y, z: self.z + 1 }
    }

    pub fn minus_xz(&self) -> (p: Self)
        requires
            self.x > 0,
            self.z > 0,
        ensures
            p == (PosU8 { x: (self.x - 1) as u8, y: self.y, z: (self.z - 1) as u8 }),
    {
        PosU8 { x: self.x - 1, y: self.y, z: self.z - 1 }
    }

    pub fn plus_yz(&self) -> (p: Self)
        requires
            self.y < 255,
            self.z < 255,
        ensures
            p == (PosU8 { x: self.x, y: (self.y + 1) as u8, z: (self.z + 1) as u8 }),
    {
        PosU8 { x: self.x, y: self.y + 1, z: self.z + 1 }
    }

    pub fn plus_xyz(&self) -> (p: Self)
        requires
            self.x < 255,
            self.y < 255,
            self.z < 255,
        ensures
            p == (PosU8 { x: (self.x + 1) as u8, y: (self.y + 1) as u8, z: (self.z + 1) as u8 }),
    {
        PosU8 { x: self.x + 1, y: self.y + 1, z: self.z + 1 }
    }

    pub fn minus_xyz(&self) -> (p: Self)
        requires
            self.x > 0,
            self.y > 0,
            self.z > 0,
        ensures
            p == (PosU8 { x: (self.x - 1) as u8, y: (self.y - 1) as u8, z: (self.z - 1) as u8 }),
    {
        PosU8 { x: self.x - 1, y: self.y - 1, z: self.z - 1 }
    }
}

impl core::ops::Add for PosU8 {
    type Output = PosU8;

    /// Component-wise addition; each axis sum must fit in a byte.
    fn add(self, rhs: PosU8) -> (p: PosU8) {
        PosU8 { x: self.x + rhs.x, y: self.y + rhs.y, z: self.z + rhs.z }
    }
}

impl vstd::std_specs::ops::AddSpecImpl for PosU8 {
    open spec fn obeys_add_spec() -> bool {
        true
    }

    open spec fn add_req(self, rhs: PosU8) -> bool {
        self.x + rhs.x <= 255 && self.y + rhs.y <= 255 && self.z + rhs.z <= 255
    }

    open spec fn add_spec(self, rhs: PosU8) -> PosU8 {
        PosU8 {
            x: (self.x + rhs.x) as u8,
            y: (self.y + rhs.y) as u8,
            z: (self.z + rhs.z) as u8,
        }
    }
}

impl core::ops::Sub for PosU8 {
    type Output = PosU8;

    /// Component-wise subtraction; each axis of `rhs` must not exceed the
    /// matching axis of `self`.
    fn sub(self, rhs: PosU8) -> (p: PosU8) {
        PosU8 { x: self.x - rhs.x, y: self.y - rhs.y, z: self.z - rhs.z }
    }
}

impl vstd::std_specs::ops::SubSpecImpl for PosU8 {
    open spec fn obeys_sub_spec() -> bool {
        true
    }

    open spec fn sub_req(self, rhs: PosU8) -> bool {
        self.x >= rhs.x && self.y >= rhs.y && self.z >= rhs.z
    }

    open spec fn sub_spec(self, rhs: PosU8) -> PosU8 {
        PosU8 {
            x: (self.x - rhs.x) as u8,
            y: (self.y - rhs.y) as u8,
            z: (self.z - rhs.z) as u8,
        }
    }
}

} // verus!
