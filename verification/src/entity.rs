//! One simulated body: bounding sphere, velocity, mass, force accumulator and
//! a payload, with the membership queries the trees ask of it.

use vstd::prelude::*;
use crate::geometry::{div_i64, div_trunc, Cube, FineDirection, Quadrant, Sphere, Vec3};
use crate::matter_tree::{classify, rel_x, rel_y, rel_z, CellPart, MAX_SIZE};
use crate::player::Player;
use crate::voxel_grid::VoxelGridSpace;

verus! {

/// Per-axis protrusion of a sphere past the faces of a cell of side `size`,
/// judged on the sphere's bounding box: component 0 asks whether it crosses
/// the low face, 2 the high face, and 1 holds always.
pub open spec fn protrudes(rel: int, radius: int, size: int, c: int) -> bool {
    if c == 0 {
        rel - radius < div_trunc(-size, 2)
    } else if c == 2 {
        rel + radius > div_trunc(size, 2) - 1
    } else {
        true
    }
}

/// Whether the sphere's bounding box reaches the neighbor cell at fine
/// direction code `i`: it must protrude past every face that neighbor lies
/// beyond, and the all-zero offset is never a neighbor.
pub open spec fn touches_fine_dir(x: int, y: int, z: int, radius: int, size: int, i: int) -> bool {
    &&& i != 13
    &&& protrudes(x, radius, size, i / 9)
    &&& protrudes(y, radius, size, (i % 9) / 3)
    &&& protrudes(z, radius, size, i % 3)
}

/// The touched fine directions with code below `i`, in code order.
pub open spec fn touched_prefix(x: int, y: int, z: int, radius: int, size: int, i: int) -> Seq<
    FineDirection,
>
    decreases i,
{
    if i <= 0 {
        Seq::empty()
    } else {
        touched_prefix(x, y, z, radius, size, i - 1) + (if touches_fine_dir(
            x,
            y,
            z,
            radius,
            size,
            i - 1,
        ) {
            seq![
                crate::geometry::fine_from_components((i - 1) / 9, ((i - 1) % 9) / 3, (i - 1) % 3),
            ]
        } else {
            Seq::empty()
        })
    }
}

/// Whether the `q`-octant's half-cube, grown by the sphere's radius, contains
/// the sphere's center at `(x, y, z)` relative to the cell's center.
pub open spec fn quadrant_collides(x: int, y: int, z: int, radius: int, size: int, q: int) -> bool {
    let half = div_trunc(size, 2);
    let quarter = div_trunc(half, 2);
    let sx = if q >= 4 { quarter } else { -quarter };
    let sy = if q % 4 >= 2 { quarter } else { -quarter };
    let sz = if q % 2 == 1 { quarter } else { -quarter };
    crate::geometry::in_centered_cube_xyz(x - sx, y - sy, z - sz, half + 2 * radius)
}

/// The octant codes below `i` whose half-cubes the sphere collides with, in
/// code order.
pub open spec fn collisioned_prefix(x: int, y: int, z: int, radius: int, size: int, i: int) -> Seq<
    u8,
>
    decreases i,
{
    if i <= 0 {
        Seq::empty()
    } else {
        collisioned_prefix(x, y, z, radius, size, i - 1) + (if quadrant_collides(
            x,
            y,
            z,
            radius,
            size,
            i - 1,
        ) {
            seq![(i - 1) as u8]
        } else {
            Seq::empty()
        })
    }
}

/// The control force an entity's payload contributes this tick: what the
/// controller asks for a controlled agent, nothing for a voxel body.
pub open spec fn control_force(e: Entity) -> Vec3 {
    match e.entity {
        EntityData::Player(p) => p.control_forces,
        EntityData::Voxels(_) => Vec3 { x: 0, y: 0, z: 0 },
    }
}

/// The arithmetic room one integration step needs: the force sums, the
/// translated center and the updated velocity all fit in their types.
pub open spec fn movement_fits(e: Entity) -> bool {
    &&& e.mass >= 0
    &&& i64::MIN <= e.external_forces.x + control_force(e).x <= i64::MAX
    &&& i64::MIN <= e.external_forces.y + control_force(e).y <= i64::MAX
    &&& i64::MIN <= e.external_forces.z + control_force(e).z <= i64::MAX
    &&& i64::MIN <= e.bounding_sphere.center.x + e.speed.x <= i64::MAX
    &&& i64::MIN <= e.bounding_sphere.center.y + e.speed.y <= i64::MAX
    &&& i64::MIN <= e.bounding_sphere.center.z + e.speed.z <= i64::MAX
    &&& (e.mass > 0 ==> i64::MIN <= e.speed.x + div_trunc(
        e.external_forces.x + control_force(e).x,
        e.mass as int,
    ) <= i64::MAX)
    &&& (e.mass > 0 ==> i64::MIN <= e.speed.y + div_trunc(
        e.external_forces.y + control_force(e).y,
        e.mass as int,
    ) <= i64::MAX)
    &&& (e.mass > 0 ==> i64::MIN <= e.speed.z + div_trunc(
        e.external_forces.z + control_force(e).z,
        e.mass as int,
    ) <= i64::MAX)
}

/// One symplectic integration step as a value: translate by the velocity,
/// update the velocity from the accumulated and control forces when the body
/// has mass, and clear the accumulator.
pub open spec fn integrate(e: Entity) -> Entity {
    let fx = e.external_forces.x + control_force(e).x;
    let fy = e.external_forces.y + control_force(e).y;
    let fz = e.external_forces.z + control_force(e).z;
    Entity {
        bounding_sphere: Sphere {
            center: Vec3 {
                x: (e.bounding_sphere.center.x + e.speed.x) as i64,
                y: (e.bounding_sphere.center.y + e.speed.y) as i64,
                z: (e.bounding_sphere.center.z + e.speed.z) as i64,
            },
            radius: e.bounding_sphere.radius,
        },
        speed: if e.mass > 0 {
            Vec3 {
                x: (e.speed.x + div_trunc(fx, e.mass as int)) as i64,
                y: (e.speed.y + div_trunc(fy, e.mass as int)) as i64,
                z: (e.speed.z + div_trunc(fz, e.mass as int)) as i64,
            }
        } else {
            e.speed
        },
        mass: e.mass,
        entity: e.entity,
        external_forces: Vec3 { x: 0, y: 0, z: 0 },
        collision_count: e.collision_count,
    }
}

/// What a body is: a controlled agent carrying its controller state, or an
/// inert voxel body.
#[derive(Debug)]
pub enum EntityData {
    Player(Player),
    Voxels(Box<VoxelGridSpace>),
}

/// A simulated body. Its coordinates are relative to the center of the owning
/// matter root, never to a world origin: crossing into a neighboring matter
/// tree rescales them, which is what keeps them bounded.
#[derive(Debug)]
pub struct Entity {
    pub bounding_sphere: Sphere,
    pub speed: Vec3,
    pub mass: i64,
    pub entity: EntityData,
    /// Forces accumulated during the tick and cleared by integration.
    pub external_forces: Vec3,
    /// How many times a collision has been applied to this body.
    pub collision_count: u64,
}

impl Entity {
    pub fn new(bounding_sphere: Sphere, entity: EntityData) -> (r: Entity)
        ensures
            r.bounding_sphere == bounding_sphere,
            r.speed == (Vec3 { x: 0i64, y: 0i64, z: 0i64 }),
            r.mass == 0,
            r.entity == entity,
            r.external_forces == (Vec3 { x: 0i64, y: 0i64, z: 0i64 }),
            r.collision_count == 0,
    {
        Entity {
            bounding_sphere,
            speed: Vec3 { x: 0, y: 0, z: 0 },
            mass: 0,
            entity,
            external_forces: Vec3 { x: 0, y: 0, z: 0 },
            collision_count: 0,
        }
    }

    pub fn new_player(pos: Vec3, player: Player) -> (r: Entity)
        ensures
            r.bounding_sphere == (Sphere { center: pos, radius: crate::player::RADIUS }),
            r.speed == (Vec3 { x: 0i64, y: 0i64, z: 0i64 }),
            r.mass == crate::player::MASS,
            r.entity == EntityData::Player(player),
            r.external_forces == (Vec3 { x: 0i64, y: 0i64, z: 0i64 }),
            r.collision_count == 0,
    {
        Entity {
            bounding_sphere: Sphere { center: pos, radius: crate::player::RADIUS },
            speed: Vec3 { x: 0, y: 0, z: 0 },
            mass: crate::player::MASS,
            entity: EntityData::Player(player),
            external_forces: Vec3 { x: 0, y: 0, z: 0 },
            collision_count: 0,
        }
    }

    /// Which part of `area` holds this entity: outside, crossing a face,
    /// wholly in one octant, or across several.
    pub fn get_containing_cell_part(&self, area: &Cube) -> (r: CellPart)
        requires
            crate::matter_tree::in_root_bounds(*area),
            self.bounding_sphere.radius >= 0,
            i64::MIN <= rel_x(self.bounding_sphere, *area) <= i64::MAX,
            i64::MIN <= rel_y(self.bounding_sphere, *area) <= i64::MAX,
            i64::MIN <= rel_z(self.bounding_sphere, *area) <= i64::MAX,
        ensures
            r == classify(self.bounding_sphere, *area),
    {
        let size = area.size;
        let half = div_i64(size, 2);
        proof {
            crate::geometry::lemma_div_trunc_bounds(size as int, 2);
        }
        let rel = Sphere {
            center: Vec3 {
                x: self.bounding_sphere.center.x - (area.origin.x + half),
                y: self.bounding_sphere.center.y - (area.origin.y + half),
                z: self.bounding_sphere.center.z - (area.origin.z + half),
            },
            radius: self.bounding_sphere.radius,
        };
        if !rel.center.is_inside_centered_cube(size) {
            return CellPart::CenterOutside;
        }
        if !rel.center.is_inside_centered_cube(size - rel.radius) {
            return CellPart::PartlyOutside;
        }
        let ghost gx = rel_x(self.bounding_sphere, *area);
        let ghost gy = rel_y(self.bounding_sphere, *area);
        let ghost gz = rel_z(self.bounding_sphere, *area);
        let ghost gr = self.bounding_sphere.radius as int;
        let ghost gs = size as int;
        let mut i: usize = 0;
        while i < 8
            invariant
                i <= 8,
                crate::matter_tree::in_root_bounds(*area),
                size == area.size,
                rel.center.x == gx && rel.center.y == gy && rel.center.z == gz,
                rel.radius == gr,
                gs == size as int,
                gx == rel_x(self.bounding_sphere, *area),
                gy == rel_y(self.bounding_sphere, *area),
                gz == rel_z(self.bounding_sphere, *area),
                gr == self.bounding_sphere.radius as int,
                crate::geometry::in_centered_cube(rel.center, gs),
                crate::geometry::in_centered_cube_xyz(gx, gy, gz, gs - gr),
                rel.radius >= 0,
                crate::matter_tree::first_fitting_quadrant(gx, gy, gz, gr, gs, 0)
                    == crate::matter_tree::first_fitting_quadrant(gx, gy, gz, gr, gs, i as int),
            decreases 8 - i,
        {
            proof {
                crate::geometry::lemma_div_trunc_bounds(size as int, 2);
                crate::geometry::lemma_div_trunc_bounds(-size as int, 2);
            }
            if rel.is_inside_quadrant(size, i) {
                proof {
                    assert(crate::matter_tree::first_fitting_quadrant(gx, gy, gz, gr, gs, i as int)
                        == Some(i as int));
                }
                return CellPart::Quadrant(Quadrant::from_index(i));
            }
            i = i + 1;
        }
        CellPart::MultiQuadrant
    }

    /// The neighbor offsets whose cells this entity's bounding sphere reaches
    /// past the faces of its own cell, in fine-direction code order.
    pub fn get_touched_external_cells(&self, area: &Cube) -> (r: Vec<FineDirection>)
        requires
            crate::matter_tree::in_root_bounds(*area),
            self.bounding_sphere.radius >= 0,
            i64::MIN <= rel_x(self.bounding_sphere, *area) - self.bounding_sphere.radius,
            rel_x(self.bounding_sphere, *area) + self.bounding_sphere.radius <= i64::MAX,
            i64::MIN <= rel_y(self.bounding_sphere, *area) - self.bounding_sphere.radius,
            rel_y(self.bounding_sphere, *area) + self.bounding_sphere.radius <= i64::MAX,
            i64::MIN <= rel_z(self.bounding_sphere, *area) - self.bounding_sphere.radius,
            rel_z(self.bounding_sphere, *area) + self.bounding_sphere.radius <= i64::MAX,
        ensures
            r@ == touched_prefix(
                rel_x(self.bounding_sphere, *area),
                rel_y(self.bounding_sphere, *area),
                rel_z(self.bounding_sphere, *area),
                self.bounding_sphere.radius as int,
                area.size as int,
                27,
            ),
    {
        let size = area.size;
        let half = div_i64(size, 2);
        proof {
            crate::geometry::lemma_div_trunc_bounds(size as int, 2);
        }
        let rx = self.bounding_sphere.center.x - (area.origin.x + half);
        let ry = self.bounding_sphere.center.y - (area.origin.y + half);
        let rz = self.bounding_sphere.center.z - (area.origin.z + half);
        let radius = self.bounding_sphere.radius;
        let min = div_i64(-size, 2);
        let max = half - 1;
        let ghost gx = rx as int;
        let ghost gy = ry as int;
        let ghost gz = rz as int;
        let ghost gr = radius as int;
        let ghost gs = size as int;
        let mut ret: Vec<FineDirection> = Vec::new();
        let mut i: usize = 0;
        while i < 27
            invariant
                i <= 27,
                min == div_trunc(-gs, 2),
                max == div_trunc(gs, 2) - 1,
                gr >= 0,
                i64::MIN <= gx - gr && gx + gr <= i64::MAX,
                i64::MIN <= gy - gr && gy + gr <= i64::MAX,
                i64::MIN <= gz - gr && gz + gr <= i64::MAX,
                rx == gx && ry == gy && rz == gz && radius == gr,
                ret@ == touched_prefix(gx, gy, gz, gr, gs, i as int),
            decreases 27 - i,
        {
            if i != 13 {
                let cx = i / 9;
                let cy = (i % 9) / 3;
                let cz = i % 3;
                let tx = if cx == 0 {
                    rx - radius < min
                } else if cx == 2 {
                    rx + radius > max
                } else {
                    true
                };
                let ty = if cy == 0 {
                    ry - radius < min
                } else if cy == 2 {
                    ry + radius > max
                } else {
                    true
                };
                let tz = if cz == 0 {
                    rz - radius < min
                } else if cz == 2 {
                    rz + radius > max
                } else {
                    true
                };
                if tx && ty && tz {
                    ret.push(FineDirection::from_components(cx as u8, cy as u8, cz as u8));
                } else {
                    proof {
                        assert(!touches_fine_dir(gx, gy, gz, gr, gs, i as int));
                        assert(ret@ =~= touched_prefix(gx, gy, gz, gr, gs, i as int + 1));
                    }
                }
            } else {
                proof {
                    assert(ret@ =~= touched_prefix(gx, gy, gz, gr, gs, i as int + 1));
                }
            }
            i = i + 1;
        }
        ret
    }

    /// The octant codes whose half-cubes, grown by the entity's radius,
    /// contain its center: the children that must consider this entity as an
    /// external collider.
    pub fn get_collisioned_quadrants(&self, area: &Cube) -> (r: Vec<u8>)
        requires
            crate::matter_tree::in_root_bounds(*area),
            self.bounding_sphere.radius >= 0,
            i64::MIN + MAX_SIZE <= rel_x(self.bounding_sphere, *area) <= i64::MAX - MAX_SIZE,
            i64::MIN + MAX_SIZE <= rel_y(self.bounding_sphere, *area) <= i64::MAX - MAX_SIZE,
            i64::MIN + MAX_SIZE <= rel_z(self.bounding_sphere, *area) <= i64::MAX - MAX_SIZE,
            div_trunc(area.size as int, 2) + 2 * self.bounding_sphere.radius <= i64::MAX,
        ensures
            r@ == collisioned_prefix(
                rel_x(self.bounding_sphere, *area),
                rel_y(self.bounding_sphere, *area),
                rel_z(self.bounding_sphere, *area),
                self.bounding_sphere.radius as int,
                area.size as int,
                8,
            ),
    {
        let size = area.size;
        let half = div_i64(size, 2);
        proof {
            crate::geometry::lemma_div_trunc_bounds(size as int, 2);
            crate::geometry::lemma_div_trunc_bounds(div_trunc(size as int, 2), 2);
        }
        let quarter = div_i64(half, 2);
        let rx = self.bounding_sphere.center.x - (area.origin.x + half);
        let ry = self.bounding_sphere.center.y - (area.origin.y + half);
        let rz = self.bounding_sphere.center.z - (area.origin.z + half);
        let radius = self.bounding_sphere.radius;
        let grown = half + 2 * radius;
        let ghost gx = rx as int;
        let ghost gy = ry as int;
        let ghost gz = rz as int;
        let ghost gr = radius as int;
        let ghost gs = size as int;
        let mut ret: Vec<u8> = Vec::new();
        let mut i: usize = 0;
        while i < 8
            invariant
                i <= 8,
                0 <= quarter <= MAX_SIZE,
                quarter == div_trunc(div_trunc(gs, 2), 2),
                grown == div_trunc(gs, 2) + 2 * gr,
                grown >= 0,
                i64::MIN + MAX_SIZE <= gx <= i64::MAX - MAX_SIZE,
                i64::MIN + MAX_SIZE <= gy <= i64::MAX - MAX_SIZE,
                i64::MIN + MAX_SIZE <= gz <= i64::MAX - MAX_SIZE,
                rx == gx && ry == gy && rz == gz && radius == gr,
                ret@ == collisioned_prefix(gx, gy, gz, gr, gs, i as int),
            decreases 8 - i,
        {
            let sx = if i >= 4 {
                quarter
            } else {
                -quarter
            };
            let sy = if i % 4 >= 2 {
                quarter
            } else {
                -quarter
            };
            let sz = if i % 2 == 1 {
                quarter
            } else {
                -quarter
            };
            let shifted = Vec3 { x: rx - sx, y: ry - sy, z: rz - sz };
            if shifted.is_inside_centered_cube(grown) {
                ret.push(i as u8);
            } else {
                proof {
                    assert(!quadrant_collides(gx, gy, gz, gr, gs, i as int));
                    assert(ret@ =~= collisioned_prefix(gx, gy, gz, gr, gs, i as int + 1));
                }
            }
            i = i + 1;
        }
        ret
    }

    /// Re-express this entity's position relative to the neighboring matter
    /// cell it crossed into: one cell size is subtracted along each axis of
    /// `direction`. This is what keeps coordinates bounded however far the
    /// entity travels.
    pub fn switch_space_tree(&mut self, direction: Vec3, cell_size: i64)
        requires
            i64::MIN <= direction.x * cell_size <= i64::MAX,
            i64::MIN <= direction.y * cell_size <= i64::MAX,
            i64::MIN <= direction.z * cell_size <= i64::MAX,
            i64::MIN <= old(self).bounding_sphere.center.x - direction.x * cell_size <= i64::MAX,
            i64::MIN <= old(self).bounding_sphere.center.y - direction.y * cell_size <= i64::MAX,
            i64::MIN <= old(self).bounding_sphere.center.z - direction.z * cell_size <= i64::MAX,
        ensures
            final(self).bounding_sphere.center.x == old(self).bounding_sphere.center.x - direction.x
                * cell_size,
            final(self).bounding_sphere.center.y == old(self).bounding_sphere.center.y - direction.y
                * cell_size,
            final(self).bounding_sphere.center.z == old(self).bounding_sphere.center.z - direction.z
                * cell_size,
            final(self).bounding_sphere.radius == old(self).bounding_sphere.radius,
            final(self).speed == old(self).speed,
            final(self).mass == old(self).mass,
            final(self).entity == old(self).entity,
            final(self).external_forces == old(self).external_forces,
            final(self).collision_count == old(self).collision_count,
    {
        let shift = direction.mul_scalar(cell_size);
        self.bounding_sphere = self.bounding_sphere.sub_to_center(&shift);
    }

    /// One integration step: add the payload's control force to the
    /// accumulator, translate by the velocity, update the velocity from the
    /// accumulated force if the body has mass, and clear the accumulator.
    pub fn run_movement(&mut self)
        requires
            old(self).mass >= 0,
            i64::MIN <= old(self).external_forces.x + control_force(*old(self)).x <= i64::MAX,
            i64::MIN <= old(self).external_forces.y + control_force(*old(self)).y <= i64::MAX,
            i64::MIN <= old(self).external_forces.z + control_force(*old(self)).z <= i64::MAX,
            i64::MIN <= old(self).bounding_sphere.center.x + old(self).speed.x <= i64::MAX,
            i64::MIN <= old(self).bounding_sphere.center.y + old(self).speed.y <= i64::MAX,
            i64::MIN <= old(self).bounding_sphere.center.z + old(self).speed.z <= i64::MAX,
            old(self).mass > 0 ==> i64::MIN <= old(self).speed.x + div_trunc(
                old(self).external_forces.x + control_force(*old(self)).x,
                old(self).mass as int,
            ) <= i64::MAX,
            old(self).mass > 0 ==> i64::MIN <= old(self).speed.y + div_trunc(
                old(self).external_forces.y + control_force(*old(self)).y,
                old(self).mass as int,
            ) <= i64::MAX,
            old(self).mass > 0 ==> i64::MIN <= old(self).speed.z + div_trunc(
                old(self).external_forces.z + control_force(*old(self)).z,
                old(self).mass as int,
            ) <= i64::MAX,
        ensures
            final(self).bounding_sphere.center.x == old(self).bounding_sphere.center.x + old(
                self,
            ).speed.x,
            final(self).bounding_sphere.center.y == old(self).bounding_sphere.center.y + old(
                self,
            ).speed.y,
            final(self).bounding_sphere.center.z == old(self).bounding_sphere.center.z + old(
                self,
            ).speed.z,
            final(self).bounding_sphere.radius == old(self).bounding_sphere.radius,
            old(self).mass > 0 ==> final(self).speed.x == old(self).speed.x + div_trunc(
                old(self).external_forces.x + control_force(*old(self)).x,
                old(self).mass as int,
            ),
            old(self).mass > 0 ==> final(self).speed.y == old(self).speed.y + div_trunc(
                old(self).external_forces.y + control_force(*old(self)).y,
                old(self).mass as int,
            ),
            old(self).mass > 0 ==> final(self).speed.z == old(self).speed.z + div_trunc(
                old(self).external_forces.z + control_force(*old(self)).z,
                old(self).mass as int,
            ),
            old(self).mass == 0 ==> final(self).speed == old(self).speed,
            final(self).external_forces == (Vec3 { x: 0i64, y: 0i64, z: 0i64 }),
            final(self).mass == old(self).mass,
            final(self).entity == old(self).entity,
            final(self).collision_count == old(self).collision_count,
            *final(self) == integrate(*old(self)),
    {
        let force_add = match &self.entity {
            EntityData::Player(player) => player.control_forces,
            EntityData::Voxels(_) => Vec3 { x: 0, y: 0, z: 0 },
        };
        self.external_forces = self.external_forces.add(&force_add);

        let speed = self.speed;
        self.bounding_sphere.move_by(&speed);
        if self.mass != 0 {
            let delta = self.external_forces.div_scalar(self.mass);
            self.speed = self.speed.add(&delta);
        }
        self.external_forces = Vec3 { x: 0, y: 0, z: 0 };
    }

    /// Whether this entity's bounding sphere overlaps the other's.
    pub fn check_collision(&self, other: &Entity) -> (r: bool)
        requires
            self.bounding_sphere.radius >= 0,
            other.bounding_sphere.radius >= 0,
            -0x4000_0000_0000_0000 <= self.bounding_sphere.center.x <= 0x4000_0000_0000_0000,
            -0x4000_0000_0000_0000 <= self.bounding_sphere.center.y <= 0x4000_0000_0000_0000,
            -0x4000_0000_0000_0000 <= self.bounding_sphere.center.z <= 0x4000_0000_0000_0000,
            -0x4000_0000_0000_0000 <= other.bounding_sphere.center.x <= 0x4000_0000_0000_0000,
            -0x4000_0000_0000_0000 <= other.bounding_sphere.center.y <= 0x4000_0000_0000_0000,
            -0x4000_0000_0000_0000 <= other.bounding_sphere.center.z <= 0x4000_0000_0000_0000,
        ensures
            r == crate::geometry::spheres_intersect(self.bounding_sphere, other.bounding_sphere),
    {
        self.bounding_sphere.intersects(&other.bounding_sphere)
    }

    /// Apply a collision to an intersecting pair: both bodies record that one
    /// collision was applied to them; a non-intersecting pair is untouched.
    /// The pass that calls this applies it at most once per unordered pair
    /// per tick.
    pub fn apply_collision(&mut self, other: &mut Entity)
        requires
            old(self).bounding_sphere.radius >= 0,
            old(other).bounding_sphere.radius >= 0,
            -0x4000_0000_0000_0000 <= old(self).bounding_sphere.center.x <= 0x4000_0000_0000_0000,
            -0x4000_0000_0000_0000 <= old(self).bounding_sphere.center.y <= 0x4000_0000_0000_0000,
            -0x4000_0000_0000_0000 <= old(self).bounding_sphere.center.z <= 0x4000_0000_0000_0000,
            -0x4000_0000_0000_0000 <= old(other).bounding_sphere.center.x <= 0x4000_0000_0000_0000,
            -0x4000_0000_0000_0000 <= old(other).bounding_sphere.center.y <= 0x4000_0000_0000_0000,
            -0x4000_0000_0000_0000 <= old(other).bounding_sphere.center.z <= 0x4000_0000_0000_0000,
            old(self).collision_count < u64::MAX,
            old(other).collision_count < u64::MAX,
        ensures
            crate::geometry::spheres_intersect(
                old(self).bounding_sphere,
                old(other).bounding_sphere,
            ) ==> {
                &&& final(self).collision_count == old(self).collision_count + 1
                &&& final(other).collision_count == old(other).collision_count + 1
            },
            !crate::geometry::spheres_intersect(
                old(self).bounding_sphere,
                old(other).bounding_sphere,
            ) ==> {
                &&& final(self).collision_count == old(self).collision_count
                &&& final(other).collision_count == old(other).collision_count
            },
            final(self).bounding_sphere == old(self).bounding_sphere,
            final(self).speed == old(self).speed,
            final(self).mass == old(self).mass,
            final(self).entity == old(self).entity,
            final(self).external_forces == old(self).external_forces,
            final(other).bounding_sphere == old(other).bounding_sphere,
            final(other).speed == old(other).speed,
            final(other).mass == old(other).mass,
            final(other).entity == old(other).entity,
            final(other).external_forces == old(other).external_forces,
    {
        if !self.check_collision(other) {
            return ;
        }
        self.collision_count = self.collision_count + 1;
        other.collision_count = other.collision_count + 1;
    }
}

} // verus!
