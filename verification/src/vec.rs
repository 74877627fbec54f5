use vstd::prelude::*;

verus! {

/// A point on the pixel grid.
#[derive(PartialEq, Eq, Structural, Clone, Copy, Debug)]
pub struct Vec2 {
    pub x: i32,
    pub y: i32,
}

/// A point on the pixel grid with a depth.
#[derive(PartialEq, Eq, Structural, Clone, Copy, Debug)]
pub struct Vec3 {
    pub x: i32,
    pub y: i32,
    pub z: i32,
}

impl Vec2 {
    pub fn new(x: i32, y: i32) -> (v: Vec2)
        ensures
            v == (Vec2 { x: x, y: y }),
    {
        Vec2 { x: x, y: y }
    }
}

impl Vec3 {
    pub fn new(x: i32, y: i32, z: i32) -> (v: Vec3)
        ensures
            v == (Vec3 { x: x, y: y, z: z }),
    {
        Vec3 { x: x, y: y, z: z }
    }

    /// The dot product.
    pub fn vec_mul(&self, rhs: &Vec3) -> (d: i64)
        requires
            i64::MIN <= self.x * rhs.x + self.y * rhs.y + self.z * rhs.z <= i64::MAX,
        ensures
            d == self.x * rhs.x + self.y * rhs.y + self.z * rhs.z,
    {
        proof {
            let xa = self.x as int;
            let xb = rhs.x as int;
            let ya = self.y as int;
            let yb = rhs.y as int;
            let za = self.z as int;
            let zb = rhs.z as int;
            assert(-0x4000_0000_0000_0000 <= xa * xb <= 0x4000_0000_0000_0000
                && -0x4000_0000_0000_0000 <= ya * yb <= 0x4000_0000_0000_0000
                && -0x4000_0000_0000_0000 <= za * zb <= 0x4000_0000_0000_0000)
                by (nonlinear_arith)
                requires
                    -0x8000_0000 <= xa <= 0x7fff_ffff,
                    -0x8000_0000 <= xb <= 0x7fff_ffff,
                    -0x8000_0000 <= ya <= 0x7fff_ffff,
                    -0x8000_0000 <= yb <= 0x7fff_ffff,
                    -0x8000_0000 <= za <= 0x7fff_ffff,
                    -0x8000_0000 <= zb <= 0x7fff_ffff,
            ;
        }
        let s: i128 = self.x as i128 * rhs.x as i128 + self.y as i128 * rhs.y as i128
            + self.z as i128 * rhs.z as i128;
        s as i64
    }

    /// The point without its depth.
    pub fn to_vec2(&self) -> (v: Vec2)
        ensures
            v == (Vec2 { x: self.x, y: self.y }),
    {
        Vec2 { x: self.x, y: self.y }
    }
}

} // verus!
