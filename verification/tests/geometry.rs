use spacetree::entity::{Entity, EntityData};
use spacetree::geometry::{div_i64, Cube, FineDirection, Quadrant, Sphere, Vec3};
use spacetree::matter_tree::CellPart;
use spacetree::voxel_grid::VoxelGridSpace;

fn v(x: i64, y: i64, z: i64) -> Vec3 {
    Vec3 { x, y, z }
}

fn rock_at(center: Vec3, radius: i64) -> Entity {
    Entity::new(
        Sphere { center, radius },
        EntityData::Voxels(Box::new(VoxelGridSpace::new())),
    )
}

#[test]
fn division_truncates_toward_zero() {
    assert_eq!(div_i64(7, 2), 3);
    assert_eq!(div_i64(-7, 2), -3);
    assert_eq!(div_i64(7, -2), -3);
    assert_eq!(div_i64(-7, -2), 3);
    assert_eq!(div_i64(0, 5), 0);
    assert_eq!(div_i64(i64::MIN, 2), i64::MIN / 2);
}

#[test]
fn centered_cube_band_is_half_open() {
    // side 8: the band is [-4, 3] on every axis
    assert!(v(-4, 0, 0).is_inside_centered_cube(8));
    assert!(v(3, 3, 3).is_inside_centered_cube(8));
    assert!(!v(4, 0, 0).is_inside_centered_cube(8));
    assert!(!v(-5, 0, 0).is_inside_centered_cube(8));
    // odd side 5: truncating divisions give [-2, 1]
    assert!(v(-2, 1, 0).is_inside_centered_cube(5));
    assert!(!v(2, 0, 0).is_inside_centered_cube(5));
}

#[test]
fn quadrant_of_a_position_favors_the_positive_side() {
    assert_eq!(Quadrant::from_pos(&v(0, 0, 0)), Quadrant::XpYpZp);
    assert_eq!(Quadrant::from_pos(&v(-1, 0, 5)), Quadrant::XnYpZp);
    assert_eq!(Quadrant::from_pos(&v(-1, -1, -1)), Quadrant::XnYnZn);
}

#[test]
fn quadrant_invert_flips_every_axis() {
    assert_eq!(Quadrant::XnYnZn.invert(), Quadrant::XpYpZp);
    assert_eq!(Quadrant::XpYnZp.invert(), Quadrant::XnYpZn);
    for i in 0..8 {
        let q = Quadrant::from_index(i);
        assert_eq!(q.invert().invert(), q);
    }
}

#[test]
fn quadrant_mirror_flips_the_nonzero_axes() {
    assert_eq!(Quadrant::XnYnZn.mirror(v(1, 0, 0)), Quadrant::XpYnZn);
    assert_eq!(Quadrant::XnYnZn.mirror(v(1, -1, 1)), Quadrant::XpYpZp);
    for i in 0..8 {
        let q = Quadrant::from_index(i);
        let dir = v(1, 0, -1);
        assert_eq!(q.mirror(dir).mirror(dir), q);
    }
}

#[test]
fn quadrant_move_to_reaches_the_sibling_or_fails() {
    assert_eq!(Quadrant::XnYnZn.move_to(v(1, 0, 0)), Some(Quadrant::XpYnZn));
    assert_eq!(Quadrant::XpYnZn.move_to(v(1, 0, 0)), None);
    assert_eq!(Quadrant::XpYpZp.move_to(v(-1, -1, -1)), Some(Quadrant::XnYnZn));
    for i in 0..8 {
        let q = Quadrant::from_index(i);
        assert_eq!(q.move_to(v(0, 0, 0)), Some(q));
    }
}

#[test]
fn quadrant_match_direction_checks_the_nonzero_axes() {
    assert!(Quadrant::XpYnZn.match_direction(v(1, 0, 0)));
    assert!(Quadrant::XpYnZn.match_direction(v(1, -1, 0)));
    assert!(!Quadrant::XpYnZn.match_direction(v(-1, 0, 0)));
    assert!(!Quadrant::XpYnZn.match_direction(v(1, 1, 0)));
}

#[test]
fn fine_direction_codes_round_trip() {
    assert_eq!(
        FineDirection::from_outsider_pos(&v(-10, 0, 10), 5),
        FineDirection::XnYzZp
    );
    assert_eq!(FineDirection::XnYzZp.equivalent_vec(), v(-1, 0, 1));
    assert_eq!(FineDirection::XzYzZz.equivalent_vec(), v(0, 0, 0));
    assert_eq!(FineDirection::XpYpZp.equivalent_vec(), v(1, 1, 1));
}

#[test]
fn outsider_direction_vector_uses_the_half_size() {
    // cell of side 8192: components judged against 4096
    assert_eq!(
        FineDirection::outsider_direction_vec(&v(4106, 0, 0), 8192),
        v(1, 0, 0)
    );
    assert_eq!(
        FineDirection::outsider_direction_vec(&v(-4106, 4200, 0), 8192),
        v(-1, 1, 0)
    );
}

#[test]
fn sphere_intersection_is_strict() {
    let a = Sphere { center: v(0, 0, 0), radius: 100 };
    let touching = Sphere { center: v(200, 0, 0), radius: 100 };
    let overlapping = Sphere { center: v(199, 0, 0), radius: 100 };
    assert!(!a.intersects(&touching));
    assert!(a.intersects(&overlapping));
}

#[test]
fn sphere_in_quadrant_respects_the_radius() {
    // outer cube of side 8192; positive octant spans [0, 4095]
    let inside = Sphere { center: v(100, 100, 100), radius: 1 };
    let straddling = Sphere { center: v(100, 0, 100), radius: 1 };
    assert!(inside.is_inside_quadrant(8192, 7));
    assert!(!straddling.is_inside_quadrant(8192, 7));
    assert!(!inside.is_inside_quadrant(8192, 0));
}

#[test]
fn classifier_returns_the_four_parts() {
    let area = Cube { origin: v(-4096, -4096, -4096), size: 8192 };
    let outside = rock_at(v(5000, 0, 0), 1);
    let partly = rock_at(v(4091, 0, 0), 10);
    let multi = rock_at(v(0, 0, 0), 1);
    let quad = rock_at(v(100, 100, 100), 1);
    assert_eq!(outside.get_containing_cell_part(&area), CellPart::CenterOutside);
    assert_eq!(partly.get_containing_cell_part(&area), CellPart::PartlyOutside);
    assert_eq!(multi.get_containing_cell_part(&area), CellPart::MultiQuadrant);
    assert_eq!(
        quad.get_containing_cell_part(&area),
        CellPart::Quadrant(Quadrant::XpYpZp)
    );
}

#[test]
fn collisioned_quadrants_grow_with_the_radius() {
    let area = Cube { origin: v(-4096, -4096, -4096), size: 8192 };
    // a small body deep inside one octant collides with that octant only
    let deep = rock_at(v(1000, 1000, 1000), 1);
    assert_eq!(deep.get_collisioned_quadrants(&area), vec![7u8]);
    // a body around the center reaches all eight
    let central = rock_at(v(0, 0, 0), 10);
    assert_eq!(
        central.get_collisioned_quadrants(&area),
        vec![0u8, 1, 2, 3, 4, 5, 6, 7]
    );
}

#[test]
fn touched_external_cells_lists_the_crossed_faces() {
    let area = Cube { origin: v(-4096, -4096, -4096), size: 8192 };
    let snug = rock_at(v(0, 0, 0), 1);
    assert!(snug.get_touched_external_cells(&area).is_empty());
    let leaning = rock_at(v(4090, 0, 0), 10);
    assert_eq!(
        leaning.get_touched_external_cells(&area),
        vec![FineDirection::XpYzZz]
    );
}

#[test]
fn collision_application_is_symmetric_and_counted() {
    let mut a = rock_at(v(0, 0, 0), 100);
    let mut b = rock_at(v(150, 0, 0), 100);
    assert!(a.check_collision(&b));
    assert!(b.check_collision(&a));
    a.apply_collision(&mut b);
    assert_eq!(a.collision_count, 1);
    assert_eq!(b.collision_count, 1);
    // the same effect with the roles swapped
    let mut a2 = rock_at(v(0, 0, 0), 100);
    let mut b2 = rock_at(v(150, 0, 0), 100);
    b2.apply_collision(&mut a2);
    assert_eq!(a2.collision_count, 1);
    assert_eq!(b2.collision_count, 1);
    // a disjoint pair is untouched
    let mut c = rock_at(v(0, 0, 0), 1);
    let mut d = rock_at(v(1000, 0, 0), 1);
    c.apply_collision(&mut d);
    assert_eq!(c.collision_count, 0);
    assert_eq!(d.collision_count, 0);
}

#[test]
fn integration_is_symplectic() {
    let mut e = rock_at(v(10, 0, 0), 1);
    e.speed = v(5, 0, 0);
    e.mass = 2;
    e.external_forces = v(7, 0, 0);
    e.run_movement();
    // position moves by the old velocity, then the velocity gains force/mass
    assert_eq!(e.bounding_sphere.center, v(15, 0, 0));
    assert_eq!(e.speed, v(8, 0, 0));
    assert_eq!(e.external_forces, v(0, 0, 0));
}
