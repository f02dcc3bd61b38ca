use vstd::prelude::*;

verus! {

/// A point or a direction on the integer lattice.
#[derive(Clone, Copy, Debug, PartialEq, Eq, Structural)]
pub struct Vec3 {
    pub x: i64,
    pub y: i64,
    pub z: i64,
}

/// A half-line `orig + t * dir`.
#[derive(Clone, Copy, Debug, PartialEq, Eq, Structural)]
pub struct Ray {
    pub orig: Vec3,
    pub dir: Vec3,
}

/// The coordinate `o + t * d` along one axis.
pub open spec fn along(o: i64, d: i64, t: i64) -> int {
    o + t * d
}

impl Ray {
    pub fn new(orig: Vec3, dir: Vec3) -> (r: Self)
        ensures
            r.orig == orig,
            r.dir == dir,
    {
        Ray { orig, dir }
    }

    /// The point at parameter `t`, `orig + t * dir`.
    pub fn project(&self, t: i64) -> (r: Vec3)
        requires
            i64::MIN <= along(self.orig.x, self.dir.x, t) <= i64::MAX,
            i64::MIN <= along(self.orig.y, self.dir.y, t) <= i64::MAX,
            i64::MIN <= along(self.orig.z, self.dir.z, t) <= i64::MAX,
        ensures
            r.x == along(self.orig.x, self.dir.x, t),
            r.y == along(self.orig.y, self.dir.y, t),
            r.z == along(self.orig.z, self.dir.z, t),
    {
        Vec3 {
            x: coord(self.orig.x, self.dir.x, t),
            y: coord(self.orig.y, self.dir.y, t),
            z: coord(self.orig.z, self.dir.z, t),
        }
    }
}

/// `o + t * d`, computed wide so that only the result has to fit.
fn coord(o: i64, d: i64, t: i64) -> (r: i64)
    requires
        i64::MIN <= along(o, d, t) <= i64::MAX,
    ensures
        r == along(o, d, t),
{
    let w: i128 = (t as i128) * (d as i128);
    proof {
        assert(-0x8000_0000_0000_0000 <= t <= 0x7fff_ffff_ffff_ffff);
        assert(-0x8000_0000_0000_0000 <= d <= 0x7fff_ffff_ffff_ffff);
        assert(-0x4000_0000_0000_0000_0000_0000_0000_0000 <= (t as int) * (d as int)
            <= 0x4000_0000_0000_0000_0000_0000_0000_0000) by (nonlinear_arith)
            requires
                -0x8000_0000_0000_0000 <= t <= 0x7fff_ffff_ffff_ffff,
                -0x8000_0000_0000_0000 <= d <= 0x7fff_ffff_ffff_ffff,
        ;
    }
    ((o as i128) + w) as i64
}

} // verus!
