use vstd::prelude::*;
use crate::world::{Cell, World};

verus! {

/// The cells of one corner of a moving body, on each axis: the cell it is
/// in, and the cell the full candidate displacement would take it to.
#[derive(Clone, Copy, PartialEq, Eq, Structural, Debug)]
pub struct CornerCells {
    pub old_x: i64,
    pub old_y: i64,
    pub old_z: i64,
    pub new_x: i64,
    pub new_y: i64,
    pub new_z: i64,
}

/// Which components of the displacement are still allowed.
#[derive(Clone, Copy, PartialEq, Eq, Structural, Debug)]
pub struct AxisMotion {
    pub x: bool,
    pub y: bool,
    pub z: bool,
}

/// The result of resolving a displacement against the grid: the components
/// that survive, whether a lower corner hit something below or above it
/// (the body is grounded), and whether any corner hit vertically (vertical
/// velocity resets).
#[derive(Clone, Copy, PartialEq, Eq, Structural, Debug)]
pub struct MotionOutcome {
    pub motion: AxisMotion,
    pub grounded: bool,
    pub vertical_hit: bool,
}

/// Number of corners, at the front of the list, that form the bottom of the body.
pub const LOWER_CORNERS: usize = 4;

/// Every component allowed: where resolution starts.
pub open spec fn all_axes() -> AxisMotion {
    AxisMotion { x: true, y: true, z: true }
}

impl World {
    /// A cell that blocks movement: inside the region and not air.
    pub open spec fn solid(&self, p: Cell) -> bool {
        self.in_rendered(p) && self.id_at(p) != 0
    }

    /// One corner against the grid, given the components still allowed:
    /// x is tested first at the old height and depth, then z with the
    /// resolved x, then y with both; a rejected y is a vertical hit.
    pub open spec fn corner_step(&self, c: CornerCells, m: AxisMotion) -> (AxisMotion, bool) {
        let tx = if m.x { c.new_x as int } else { c.old_x as int };
        let keep_x = m.x && !self.solid((tx, c.old_y as int, c.old_z as int));
        let rx = if keep_x { c.new_x as int } else { c.old_x as int };
        let tz = if m.z { c.new_z as int } else { c.old_z as int };
        let keep_z = m.z && !self.solid((rx, c.old_y as int, tz));
        let rz = if keep_z { c.new_z as int } else { c.old_z as int };
        let ty = if m.y { c.new_y as int } else { c.old_y as int };
        let hit = self.solid((rx, ty, rz));
        (AxisMotion { x: keep_x, y: m.y && !hit, z: keep_z }, hit)
    }

    /// The outcome after the first `n` corners, each starting from what the
    /// previous ones left of the displacement.
    pub open spec fn resolve_prefix(&self, cs: Seq<CornerCells>, n: nat) -> MotionOutcome
        decreases n,
    {
        if n == 0 {
            MotionOutcome { motion: all_axes(), grounded: false, vertical_hit: false }
        } else {
            let prev = self.resolve_prefix(cs, (n - 1) as nat);
            let (m, hit) = self.corner_step(cs[n - 1], prev.motion);
            MotionOutcome {
                motion: m,
                grounded: prev.grounded || (n - 1 < LOWER_CORNERS && hit),
                vertical_hit: prev.vertical_hit || hit,
            }
        }
    }

    /// Whether a cell blocks movement.
    pub fn is_solid_cell(&self, x: i64, y: i64, z: i64) -> (r: bool)
        requires
            self.wf(),
        ensures
            r == self.solid((x as int, y as int, z as int)),
    {
        y >= 0 && y <= 255 && self.is_in_rendered_world_bounds(x, y as i16, z) && self.get_block_id(
            x as u32,
            y as u8,
            z as u32,
        ) > 0
    }

    /// Resolves one corner, x then z then y, from the components still allowed.
    pub fn resolve_corner(&self, c: CornerCells, m: AxisMotion) -> (r: (AxisMotion, bool))
        requires
            self.wf(),
        ensures
            r == self.corner_step(c, m),
    {
        let mut x = if m.x { c.new_x } else { c.old_x };
        let keep_x = m.x && !self.is_solid_cell(x, c.old_y, c.old_z);
        if !keep_x {
            x = c.old_x;
        }
        let mut z = if m.z { c.new_z } else { c.old_z };
        let keep_z = m.z && !self.is_solid_cell(x, c.old_y, z);
        if !keep_z {
            z = c.old_z;
        }
        let y = if m.y { c.new_y } else { c.old_y };
        let hit = self.is_solid_cell(x, y, z);
        (AxisMotion { x: keep_x, y: m.y && !hit, z: keep_z }, hit)
    }

    /// Resolves a displacement of a body against the grid, corner by corner,
    /// each corner starting from what the previous ones left. The lower
    /// corners come first in `corners`. Collision is only attempted when the
    /// body's cell lies in the region; elsewhere the result is `None` and
    /// movement is unconstrained.
    pub fn resolve_motion(&self, body_x: i64, body_y: i64, body_z: i64, corners: &Vec<CornerCells>) -> (r: Option<MotionOutcome>)
        requires
            self.wf(),
        ensures
            r is None <==> !self.in_rendered((body_x as int, body_y as int, body_z as int)),
            r is Some ==> r->0 == self.resolve_prefix(corners@, corners@.len()),
    {
        if !(body_y >= 0 && body_y <= 255 && self.is_in_rendered_world_bounds(body_x, body_y as i16, body_z)) {
            return None;
        }
        let mut out = MotionOutcome {
            motion: AxisMotion { x: true, y: true, z: true },
            grounded: false,
            vertical_hit: false,
        };
        let mut i: usize = 0;
        while i < corners.len()
            invariant
                self.wf(),
                i <= corners@.len(),
                out == self.resolve_prefix(corners@, i as nat),
            decreases corners@.len() - i,
        {
            let (m, hit) = self.resolve_corner(corners[i], out.motion);
            out = MotionOutcome {
                motion: m,
                grounded: out.grounded || (i < LOWER_CORNERS && hit),
                vertical_hit: out.vertical_hit || hit,
            };
            i = i + 1;
        }
        Some(out)
    }
}

/// Sliding along a wall: when a corner's x move runs into a solid cell and
/// its z move, at its old x, leads into a free cell, x is rejected and z
/// still goes through.
pub proof fn lemma_wall_slide(w: World, c: CornerCells)
    requires
        w.solid((c.new_x as int, c.old_y as int, c.old_z as int)),
        !w.solid((c.old_x as int, c.old_y as int, c.new_z as int)),
    ensures
        !w.corner_step(c, all_axes()).0.x,
        w.corner_step(c, all_axes()).0.z,
{
}

/// Landing: a corner that moves only down into a solid cell keeps its
/// height, reports a vertical hit, and, if it is one of the lower corners
/// of the body, grounds it.
pub proof fn lemma_landing(w: World, cs: Seq<CornerCells>, i: nat)
    requires
        i < LOWER_CORNERS,
        i < cs.len(),
        w.resolve_prefix(cs, i).motion.y,
        cs[i as int].new_x == cs[i as int].old_x,
        cs[i as int].new_z == cs[i as int].old_z,
        !w.solid((cs[i as int].old_x as int, cs[i as int].old_y as int, cs[i as int].old_z as int)),
        w.solid((cs[i as int].old_x as int, cs[i as int].new_y as int, cs[i as int].old_z as int)),
    ensures
        !w.resolve_prefix(cs, i + 1).motion.y,
        w.resolve_prefix(cs, i + 1).vertical_hit,
        w.resolve_prefix(cs, i + 1).grounded,
{
}

} // verus!
