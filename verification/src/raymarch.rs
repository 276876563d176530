//! Grid-stepping ray traversal over a three-dimensional voxel grid.
//!
//! A prepared ray carries, per axis, the cell coordinate of its starting
//! cell, the sign of travel, the accumulated distance to the next cell
//! boundary, and the distance between successive boundaries. All distances
//! are unsigned integers in one fixed-point unit of the caller's choice
//! (the same unit as the travel bound `tmax`); `u64::MAX` stands for a
//! boundary that is never reached, as on an axis whose direction component
//! is zero. The traversal walks cell to cell, always crossing the soonest
//! boundary — ties prefer the x axis, then y, then z — and returns the
//! stored color of the first present cell, or nothing once the next
//! boundary lies beyond the bound.

use vstd::math::abs;
use vstd::prelude::*;

use crate::buffer::Buffer;
use crate::linear::{flat_of, in_shape, lemma_flat_of_bound, volume};

verus! {

/// A voxel color: three 8-bit channels.
#[derive(Clone, Copy, PartialEq, Eq, Structural, Debug)]
pub struct Color {
    pub r: u8,
    pub g: u8,
    pub b: u8,
}

/// The state of one axis of a prepared ray.
#[derive(Clone, Copy, PartialEq, Eq, Structural, Debug)]
pub struct RayAxis {
    /// Coordinate of the current cell on this axis; may lie outside the grid.
    pub cell: i64,
    /// Sign of the direction component on this axis: -1, 0 or +1.
    pub step: i64,
    /// Accumulated distance to this axis's next cell boundary.
    pub tnext: u64,
    /// Distance between successive boundaries of this axis: the reciprocal
    /// of the absolute direction component, in the caller's unit;
    /// `u64::MAX` on an axis that is not moving.
    pub delta: u64,
}

/// A ray prepared for traversal: the cell containing its origin and the
/// per-axis stepping state derived from its unit-length direction.
#[derive(Clone, Copy, PartialEq, Eq, Structural, Debug)]
pub struct Ray {
    pub x: RayAxis,
    pub y: RayAxis,
    pub z: RayAxis,
}

/// A successful traversal: the stored color of the first present cell the
/// ray entered. The face normal and the exact travel distance are left to
/// the caller's shading layer, which works in its own numeric domain.
#[derive(Clone, Copy, PartialEq, Eq, Structural, Debug)]
pub struct RayHit {
    pub color: Color,
}

impl RayAxis {
    /// A unit-length direction never crosses two boundaries of one axis
    /// less than one cell apart, so a prepared axis advances by at least
    /// one distance unit per crossing; the sign of travel is a sign.
    pub open spec fn wf(self) -> bool {
        &&& -1 <= self.step <= 1
        &&& self.delta >= 1
    }

    /// The cell coordinate stays representable throughout a traversal
    /// bounded by `tmax`: at most one crossing per distance unit.
    pub open spec fn in_range(self, tmax: u64) -> bool {
        &&& i64::MIN <= self.cell - tmax - 1
        &&& self.cell + tmax + 1 <= i64::MAX
    }
}

impl Ray {
    pub open spec fn wf(self) -> bool {
        self.x.wf() && self.y.wf() && self.z.wf()
    }

    pub open spec fn in_range(self, tmax: u64) -> bool {
        self.x.in_range(tmax) && self.y.in_range(tmax) && self.z.in_range(tmax)
    }
}

/// Distance addition that saturates at `u64::MAX`, the stand-in for a
/// boundary beyond any bound.
pub open spec fn sat_add(a: u64, b: u64) -> u64 {
    if a + b > u64::MAX {
        u64::MAX
    } else {
        (a + b) as u64
    }
}

/// The smallest accumulated boundary distance among the three axes.
pub open spec fn soonest(r: Ray) -> u64 {
    if r.x.tnext <= r.y.tnext && r.x.tnext <= r.z.tnext {
        r.x.tnext
    } else if r.y.tnext <= r.z.tnext {
        r.y.tnext
    } else {
        r.z.tnext
    }
}

/// One boundary crossing on one axis: the cell moves by the sign of travel
/// and the next boundary recedes by one cell's worth of distance.
pub open spec fn step_axis(a: RayAxis) -> RayAxis {
    RayAxis {
        cell: (a.cell + a.step) as i64,
        step: a.step,
        tnext: sat_add(a.tnext, a.delta),
        delta: a.delta,
    }
}

/// One traversal step: the axis with the smallest accumulated boundary
/// distance advances; on an exact tie the x axis is chosen before y, and
/// y before z.
pub open spec fn step_ray(r: Ray) -> Ray {
    if r.x.tnext <= r.y.tnext && r.x.tnext <= r.z.tnext {
        Ray { x: step_axis(r.x), y: r.y, z: r.z }
    } else if r.y.tnext <= r.z.tnext {
        Ray { x: r.x, y: step_axis(r.y), z: r.z }
    } else {
        Ray { x: r.x, y: r.y, z: step_axis(r.z) }
    }
}

/// How much of the travel budget one axis has left before its next
/// boundary passes the bound.
pub open spec fn axis_slack(a: RayAxis, tmax: u64) -> int {
    if a.tnext > tmax {
        0
    } else {
        tmax + 1 - a.tnext
    }
}

/// An upper bound on the boundary crossings a traversal can still make.
pub open spec fn march_measure(r: Ray, tmax: u64) -> int {
    axis_slack(r.x, tmax) + axis_slack(r.y, tmax) + axis_slack(r.z, tmax)
}

/// Stepping the soonest axis consumes travel budget: the traversal
/// terminates.
pub proof fn lemma_step_ray_measure(r: Ray, tmax: u64)
    requires
        r.wf(),
        soonest(r) <= tmax,
        tmax < u64::MAX,
    ensures
        step_ray(r).wf(),
        0 <= march_measure(step_ray(r), tmax) < march_measure(r, tmax),
{
}

/// On an exact tie that makes the x axis soonest, the x axis alone steps.
pub proof fn lemma_tie_prefers_x(r: Ray)
    requires
        r.x.tnext <= r.y.tnext,
        r.x.tnext <= r.z.tnext,
    ensures
        step_ray(r) == (Ray { x: step_axis(r.x), y: r.y, z: r.z }),
{
}

/// When x is not soonest, a tie between y and z steps the y axis alone.
pub proof fn lemma_tie_prefers_y(r: Ray)
    requires
        !(r.x.tnext <= r.y.tnext && r.x.tnext <= r.z.tnext),
        r.y.tnext <= r.z.tnext,
    ensures
        step_ray(r) == (Ray { x: r.x, y: step_axis(r.y), z: r.z }),
{
}

/// The z axis steps only when strictly sooner than both x and y.
pub proof fn lemma_tie_prefers_z(r: Ray)
    requires
        !(r.x.tnext <= r.y.tnext && r.x.tnext <= r.z.tnext),
        !(r.y.tnext <= r.z.tnext),
    ensures
        step_ray(r) == (Ray { x: r.x, y: r.y, z: step_axis(r.z) }),
        r.z.tnext < r.x.tnext,
        r.z.tnext < r.y.tnext,
{
}

/// The authoritative scene for traversal: an occupancy buffer and a color
/// buffer over one shared three-dimensional shape.
pub struct VoxelList {
    pub presence: Buffer<bool, 3>,
    pub colors: Buffer<Color, 3>,
}

impl VoxelList {
    /// Both buffers are well formed and share one shape.
    pub open spec fn wf(self) -> bool {
        &&& self.presence.wf()
        &&& self.colors.wf()
        &&& self.presence.size@ == self.colors.size@
    }

    /// A cell's coordinates as a coordinate vector for the buffers.
    pub open spec fn cell_coords(x: int, y: int, z: int) -> Seq<usize> {
        seq![x as usize, y as usize, z as usize]
    }

    /// The cell lies inside the grid's shape.
    pub open spec fn cell_in_grid(self, x: int, y: int, z: int) -> bool {
        &&& 0 <= x < self.presence.size@[0]
        &&& 0 <= y < self.presence.size@[1]
        &&& 0 <= z < self.presence.size@[2]
    }

    /// A cell is present iff it is in bounds and its occupancy entry is set.
    pub open spec fn present(self, x: int, y: int, z: int) -> bool {
        &&& self.cell_in_grid(x, y, z)
        &&& self.presence.items@[flat_of(self.presence.size@, Self::cell_coords(x, y, z))]
    }

    /// The stored color of an in-grid cell.
    pub open spec fn color_at(self, x: int, y: int, z: int) -> Color {
        self.colors.items@[flat_of(self.colors.size@, Self::cell_coords(x, y, z))]
    }

    /// The mathematical traversal: the stored color of the first present
    /// cell on the ray's stepping path whose entry lies within the bound,
    /// starting at the origin's own cell, or nothing. This is the meaning
    /// that the executable `march` is held to.
    pub open spec fn march_spec(self, r: Ray, tmax: u64) -> Option<Color>
        decreases march_measure(r, tmax),
        when r.wf() && tmax < u64::MAX
    {
        if self.present(r.x.cell as int, r.y.cell as int, r.z.cell as int) {
            Some(self.color_at(r.x.cell as int, r.y.cell as int, r.z.cell as int))
        } else if soonest(r) > tmax {
            None
        } else {
            proof {
                lemma_step_ray_measure(r, tmax);
            }
            self.march_spec(step_ray(r), tmax)
        }
    }
}

impl VoxelList {
    /// A grid of the given shape with every cell absent.
    pub fn new(size: [usize; 3]) -> (r: Self)
        requires
            volume(size@) <= usize::MAX,
        ensures
            r.wf(),
            r.presence.size == size,
            r.colors.size == size,
            forall|x: int, y: int, z: int| !r.present(x, y, z),
    {
        let r = Self {
            presence: Buffer::build(false, size),
            colors: Buffer::build(Color { r: 0, g: 0, b: 0 }, size),
        };
        proof {
            assert forall|x: int, y: int, z: int| !r.present(x, y, z) by {
                if r.cell_in_grid(x, y, z) {
                    let c = Self::cell_coords(x, y, z);
                    assert(in_shape(r.presence.size@, c));
                    lemma_flat_of_bound(r.presence.size@, c);
                }
            }
        }
        r
    }

    /// Mark the cell at `location` present and store its color. Every other
    /// cell keeps its occupancy and its color.
    pub fn set(&mut self, location: [usize; 3], color: Color)
        requires
            old(self).wf(),
            in_shape(old(self).presence.size@, location@),
        ensures
            final(self).wf(),
            final(self).presence.size == old(self).presence.size,
            final(self).colors.size == old(self).colors.size,
            final(self).present(location@[0] as int, location@[1] as int, location@[2] as int),
            final(self).color_at(location@[0] as int, location@[1] as int, location@[2] as int)
                == color,
            forall|x: int, y: int, z: int|
                Self::cell_coords(x, y, z) != location@ && old(self).cell_in_grid(x, y, z)
                    ==> final(self).present(x, y, z) == old(self).present(x, y, z)
                        && final(self).color_at(x, y, z) == old(self).color_at(x, y, z),
            forall|x: int, y: int, z: int|
                !old(self).cell_in_grid(x, y, z) ==> !final(self).present(x, y, z),
    {
        self.presence.set_at(location, true);
        self.colors.set_at(location, color);
        proof {
            let s = old(self).presence.size@;
            let lidx = flat_of(s, location@);
            lemma_flat_of_bound(s, location@);
            assert(Self::cell_coords(
                location@[0] as int,
                location@[1] as int,
                location@[2] as int,
            ) =~= location@);
            assert forall|x: int, y: int, z: int|
                Self::cell_coords(x, y, z) != location@ && old(self).cell_in_grid(x, y, z)
                    implies final(self).present(x, y, z) == old(self).present(x, y, z)
                        && final(self).color_at(x, y, z) == old(self).color_at(x, y, z) by {
                let c = Self::cell_coords(x, y, z);
                assert(in_shape(s, c));
                lemma_flat_of_bound(s, c);
                if flat_of(s, c) == lidx {
                    crate::linear::lemma_coords_of_flat_of(s, c);
                    crate::linear::lemma_coords_of_flat_of(s, location@);
                }
            }
        }
    }
}

/// Bookkeeping for one axis of a traversal that began at `a0`: sign and
/// spacing never change, the cell moves only in the sign's direction, the
/// cell has moved at most `tmax + 1` cells, and every crossing so far has
/// paid at least one spacing of distance.
pub open spec fn axis_progress(a0: RayAxis, a: RayAxis, tmax: u64) -> bool {
    &&& a.step == a0.step
    &&& a.delta == a0.delta
    &&& a0.step >= 0 ==> a.cell >= a0.cell
    &&& a0.step <= 0 ==> a.cell <= a0.cell
    &&& abs(a.cell - a0.cell) <= tmax + 1
    &&& a.tnext == u64::MAX || a.tnext >= a0.tnext + abs(a.cell - a0.cell) * a0.delta
}

/// An axis whose next boundary still lies within the bound can cross it:
/// the crossing stays in range and keeps the progress bookkeeping.
proof fn lemma_axis_advance(a0: RayAxis, a: RayAxis, tmax: u64)
    requires
        a0.wf(),
        a0.in_range(tmax),
        axis_progress(a0, a, tmax),
        a.tnext <= tmax,
        tmax < u64::MAX,
    ensures
        i64::MIN <= a.cell + a.step,
        a.cell + a.step <= i64::MAX,
        step_axis(a).cell == a.cell + a.step,
        axis_progress(a0, step_axis(a), tmax),
{
    let d = abs(a.cell - a0.cell);
    assert(d * a0.delta >= d) by (nonlinear_arith)
        requires
            d >= 0,
            a0.delta >= 1,
    ;
    assert(d <= tmax);
    let na = step_axis(a);
    assert(na.cell == a.cell + a.step);
    let nd = abs(na.cell - a0.cell);
    assert(nd <= d + 1);
    if a.tnext + a.delta > u64::MAX {
        assert(na.tnext == u64::MAX);
    } else {
        assert(na.tnext == a.tnext + a.delta);
        assert(nd * a0.delta <= (d + 1) * a0.delta) by (nonlinear_arith)
            requires
                0 <= nd <= d + 1,
                a0.delta >= 0,
        ;
        assert((d + 1) * a0.delta == d * a0.delta + a0.delta) by (nonlinear_arith);
    }
}

impl RayAxis {
    /// Cross one boundary on this axis.
    fn advance(self) -> (r: RayAxis)
        requires
            i64::MIN <= self.cell + self.step,
            self.cell + self.step <= i64::MAX,
        ensures
            r == step_axis(self),
    {
        let tnext = if self.delta > u64::MAX - self.tnext {
            u64::MAX
        } else {
            self.tnext + self.delta
        };
        RayAxis { cell: self.cell + self.step, step: self.step, tnext, delta: self.delta }
    }
}

/// The traversal capability: a scene representation that can march a ray
/// through itself and report the nearest hit within a distance bound. Each
/// representation declares its own validity invariant and its own
/// mathematical hit function, and its `march` is held to that function, so
/// representations are interchangeable from the caller's side.
pub trait RayMarch {
    /// The representation's validity invariant.
    spec fn inv(&self) -> bool;

    /// The mathematical result of a march: the stored color of the first
    /// present cell within the bound, or nothing.
    spec fn hit_spec(&self, ray: Ray, tmax: u64) -> Option<Color>;

    /// March a ray through the scene and return the nearest hit within
    /// `tmax`, or nothing; finding no hit is an ordinary outcome, not an
    /// error. The bound must be positive and finite, and the ray prepared
    /// from a unit-length direction and a representable starting cell.
    fn march(&self, ray: Ray, tmax: u64) -> (res: Option<RayHit>)
        requires
            self.inv(),
            ray.wf(),
            ray.in_range(tmax),
            0 < tmax < u64::MAX,
        ensures
            res matches Some(h) ==> self.hit_spec(ray, tmax) == Some(h.color),
            res is None ==> self.hit_spec(ray, tmax) is None,
    ;
}

impl RayMarch for VoxelList {
    open spec fn inv(&self) -> bool {
        self.wf()
    }

    open spec fn hit_spec(&self, ray: Ray, tmax: u64) -> Option<Color> {
        self.march_spec(ray, tmax)
    }

    fn march(&self, ray: Ray, tmax: u64) -> (res: Option<RayHit>) {
        let mut r = ray;
        proof {
            assert(abs(ray.x.cell - ray.x.cell) == 0);
            assert(abs(ray.y.cell - ray.y.cell) == 0);
            assert(abs(ray.z.cell - ray.z.cell) == 0);
            assert(abs(ray.x.cell - ray.x.cell) * ray.x.delta == 0);
            assert(abs(ray.y.cell - ray.y.cell) * ray.y.delta == 0);
            assert(abs(ray.z.cell - ray.z.cell) * ray.z.delta == 0);
            assert(axis_progress(ray.x, ray.x, tmax));
            assert(axis_progress(ray.y, ray.y, tmax));
            assert(axis_progress(ray.z, ray.z, tmax));
        }
        #[verifier::loop_isolation(false)]
        loop
            invariant
                r.wf(),
                axis_progress(ray.x, r.x, tmax),
                axis_progress(ray.y, r.y, tmax),
                axis_progress(ray.z, r.z, tmax),
                self.march_spec(r, tmax) == self.march_spec(ray, tmax),
            decreases march_measure(r, tmax),
        {
            let ghost gx = r.x.cell as int;
            let ghost gy = r.y.cell as int;
            let ghost gz = r.z.cell as int;
            let sx = self.presence.size[0];
            let sy = self.presence.size[1];
            let sz = self.presence.size[2];
            if r.x.cell >= 0 && r.y.cell >= 0 && r.z.cell >= 0 && (r.x.cell as u64) < (sx
                as u64) && (r.y.cell as u64) < (sy as u64) && (r.z.cell as u64) < (sz as u64) {
                let coords = [r.x.cell as usize, r.y.cell as usize, r.z.cell as usize];
                proof {
                    assert(coords@ =~= VoxelList::cell_coords(gx, gy, gz));
                    assert(in_shape(self.presence.size@, coords@));
                }
                let idx = self.presence.linearize(coords);
                if *self.presence.get(idx) {
                    let color = *self.colors.get(idx);
                    proof {
                        assert(self.present(gx, gy, gz));
                        assert(color == self.color_at(gx, gy, gz));
                    }
                    return Some(RayHit { color });
                }
                proof {
                    assert(!self.present(gx, gy, gz));
                }
            } else {
                proof {
                    assert(!self.cell_in_grid(gx, gy, gz));
                }
            }
            let ghost r0 = r;
            if r.x.tnext <= r.y.tnext && r.x.tnext <= r.z.tnext {
                if r.x.tnext > tmax {
                    proof {
                        assert(soonest(r) > tmax);
                    }
                    return None;
                }
                proof {
                    lemma_axis_advance(ray.x, r.x, tmax);
                }
                r = Ray { x: r.x.advance(), y: r.y, z: r.z };
            } else if r.y.tnext <= r.z.tnext {
                if r.y.tnext > tmax {
                    proof {
                        assert(soonest(r) > tmax);
                    }
                    return None;
                }
                proof {
                    lemma_axis_advance(ray.y, r.y, tmax);
                }
                r = Ray { x: r.x, y: r.y.advance(), z: r.z };
            } else {
                if r.z.tnext > tmax {
                    proof {
                        assert(soonest(r) > tmax);
                    }
                    return None;
                }
                proof {
                    lemma_axis_advance(ray.z, r.z, tmax);
                }
                r = Ray { x: r.x, y: r.y, z: r.z.advance() };
            }
            proof {
                assert(r == step_ray(r0));
                lemma_step_ray_measure(r0, tmax);
                assert(self.march_spec(r0, tmax) == self.march_spec(r, tmax));
            }
        }
    }
}

/// A grid with no present cell yields no hit, for any ray and any finite
/// bound.
pub proof fn lemma_march_empty_grid(g: VoxelList, r: Ray, tmax: u64)
    requires
        g.wf(),
        r.wf(),
        tmax < u64::MAX,
        forall|i: int| 0 <= i < g.presence.items@.len() ==> !g.presence.items@[i],
    ensures
        g.march_spec(r, tmax) is None,
    decreases march_measure(r, tmax),
{
    let x = r.x.cell as int;
    let y = r.y.cell as int;
    let z = r.z.cell as int;
    if g.cell_in_grid(x, y, z) {
        let c = VoxelList::cell_coords(x, y, z);
        assert(in_shape(g.presence.size@, c));
        lemma_flat_of_bound(g.presence.size@, c);
    }
    assert(!g.present(x, y, z));
    if soonest(r) <= tmax {
        lemma_step_ray_measure(r, tmax);
        lemma_march_empty_grid(g, step_ray(r), tmax);
    }
}

/// Every hit carries the stored color of some present cell: the traversal
/// never invents a color.
pub proof fn lemma_march_hit_is_present(g: VoxelList, r: Ray, tmax: u64)
    requires
        r.wf(),
        tmax < u64::MAX,
        g.march_spec(r, tmax) is Some,
    ensures
        exists|x: int, y: int, z: int|
            g.present(x, y, z) && g.march_spec(r, tmax) == Some(g.color_at(x, y, z)),
    decreases march_measure(r, tmax),
{
    let x = r.x.cell as int;
    let y = r.y.cell as int;
    let z = r.z.cell as int;
    if g.present(x, y, z) {
        assert(g.present(x, y, z) && g.march_spec(r, tmax) == Some(g.color_at(x, y, z)));
    } else {
        assert(soonest(r) <= tmax);
        lemma_step_ray_measure(r, tmax);
        lemma_march_hit_is_present(g, step_ray(r), tmax);
        let (px, py, pz) = choose|px: int, py: int, pz: int|
            g.present(px, py, pz) && g.march_spec(step_ray(r), tmax) == Some(
                g.color_at(px, py, pz),
            );
        assert(g.present(px, py, pz) && g.march_spec(r, tmax) == Some(g.color_at(px, py, pz)));
    }
}

} // verus!
