use spacetree::entity::{Entity, EntityData};
use spacetree::geometry::{Quadrant, Sphere, Vec3};
use spacetree::matter_tree::MatterTree;
use spacetree::player::Player;
use spacetree::space::Space;
use spacetree::space_tree::{GrowableSpaceTree, SpaceTree};
use spacetree::voxel_grid::VoxelGridSpace;

fn v(x: i64, y: i64, z: i64) -> Vec3 {
    Vec3 { x, y, z }
}

fn rock_at(center: Vec3, radius: i64) -> Entity {
    Entity::new(
        Sphere { center, radius },
        EntityData::Voxels(Box::new(VoxelGridSpace::new())),
    )
}

fn moving_rock(center: Vec3, radius: i64, speed: Vec3) -> Entity {
    let mut e = rock_at(center, radius);
    e.speed = speed;
    e
}

/// Every entity of the universe as `(cell scale, center, collision count)`.
fn collect(tree: &SpaceTree, out: &mut Vec<(u32, Vec3, u64)>) {
    match tree {
        SpaceTree::Matter(m) => collect_cells(m, out),
        SpaceTree::Parent(p) => {
            for slot in p.sub_trees.iter() {
                if let Some(c) = slot {
                    collect(c, out);
                }
            }
        }
    }
}

fn collect_cells(m: &MatterTree, out: &mut Vec<(u32, Vec3, u64)>) {
    for e in m.entities.iter() {
        out.push((m.scale, e.bounding_sphere.center, e.collision_count));
    }
    for slot in m.sub_trees.iter() {
        if let Some(c) = slot {
            collect_cells(c, out);
        }
    }
}

fn entities_of(space: &Space) -> Vec<(u32, Vec3, u64)> {
    let mut out = Vec::new();
    collect(&space.tree.tree, &mut out);
    out
}

fn set_every_speed(tree: &mut SpaceTree, speed: Vec3) {
    match tree {
        SpaceTree::Matter(m) => set_every_speed_cells(m, speed),
        SpaceTree::Parent(p) => {
            for slot in p.sub_trees.iter_mut() {
                if let Some(c) = slot {
                    set_every_speed(c, speed);
                }
            }
        }
    }
}

fn set_every_speed_cells(m: &mut MatterTree, speed: Vec3) {
    for e in m.entities.iter_mut() {
        e.speed = speed;
    }
    for slot in m.sub_trees.iter_mut() {
        if let Some(c) = slot {
            set_every_speed_cells(c, speed);
        }
    }
}

#[test]
fn static_singleton_stays_put() {
    let mut space = Space::new();
    assert!(space.tree.insert_entity(rock_at(v(0, 0, 0), 1)));
    for _ in 0..10 {
        space.run();
    }
    assert_eq!(space.node_count(), 1);
    assert_eq!(space.entity_count(), 1);
    let ents = entities_of(&space);
    assert_eq!(ents.len(), 1);
    assert_eq!(ents[0].1, v(0, 0, 0));
}

#[test]
fn demotion_follows_motion() {
    let mut space = Space::new();
    assert!(space.tree.insert_entity(moving_rock(v(0, 0, 0), 1, v(100, 100, 100))));
    space.run();
    // wholly inside one octant of the root now, so it was handed down a level
    let ents = entities_of(&space);
    assert_eq!(ents.len(), 1);
    assert_eq!(ents[0].1, v(100, 100, 100));
    assert_eq!(ents[0].0, 7);
    space.run();
    // each pass settles it one level deeper while it keeps fitting
    let ents = entities_of(&space);
    assert_eq!(ents[0].1, v(200, 200, 200));
    assert_eq!(ents[0].0, 6);
}

#[test]
fn ascent_on_overflow_rescales_the_entity() {
    let mut space = Space::new();
    // MAX_SIZE/2 - 10 = 4086; one step of 20 crosses the +x face
    assert!(space.tree.insert_entity(moving_rock(v(4086, 0, 0), 1, v(20, 0, 0))));
    space.run();
    assert_eq!(space.entity_count(), 1);
    let ents = entities_of(&space);
    // relative to the neighbor matter cell: 10 - MAX_SIZE/2
    assert_eq!(ents[0].1, v(-4086, 0, 0));
    // the emptied former root was pruned and the root collapsed again
    assert_eq!(space.node_count(), 1);
    assert!(matches!(space.tree.tree.as_ref(), SpaceTree::Matter(_)));
}

#[test]
fn return_home_shrinks_the_tree() {
    let mut space = Space::new();
    assert!(space.tree.insert_entity(moving_rock(v(4086, 0, 0), 1, v(20, 0, 0))));
    space.run();
    set_every_speed(&mut space.tree.tree, v(-20, 0, 0));
    space.run();
    assert_eq!(space.entity_count(), 1);
    assert_eq!(space.node_count(), 1);
    assert!(matches!(space.tree.tree.as_ref(), SpaceTree::Matter(_)));
    let ents = entities_of(&space);
    assert_eq!(ents[0].1, v(4086, 0, 0));
}

#[test]
fn corner_growth_moves_the_root_to_the_opposite_octant() {
    let mut space = Space::new();
    assert!(space.tree.insert_entity(rock_at(v(0, 0, 0), 1)));
    assert!(space.tree.insert_entity(moving_rock(v(4086, 4086, 4086), 1, v(20, 20, 20))));
    space.run();
    assert_eq!(space.entity_count(), 2);
    // a single growth step: the root is a parent at scale 0 whose XnYnZn
    // child is the former root and whose XpYpZp child received the traveler
    match space.tree.tree.as_ref() {
        SpaceTree::Parent(p) => {
            assert_eq!(p.scale, 0);
            assert!(p.sub_trees[0].is_some());
            assert!(p.sub_trees[7].is_some());
            for i in 1..7 {
                assert!(p.sub_trees[i].is_none());
            }
            match p.sub_trees[0].as_deref() {
                Some(SpaceTree::Matter(m)) => {
                    let mut out = Vec::new();
                    collect_cells(m, &mut out);
                    assert_eq!(out.len(), 1);
                    assert_eq!(out[0].1, v(0, 0, 0));
                }
                _ => panic!("the former root should sit in the XnYnZn octant"),
            }
            match p.sub_trees[7].as_deref() {
                Some(SpaceTree::Matter(m)) => {
                    let mut out = Vec::new();
                    collect_cells(m, &mut out);
                    assert_eq!(out.len(), 1);
                    assert_eq!(out[0].1, v(-4086, -4086, -4086));
                }
                _ => panic!("the traveler should sit in the XpYpZp octant"),
            }
        }
        SpaceTree::Matter(_) => panic!("the root should have grown into a parent"),
    }
    // a grown universe no longer accepts direct insertion
    assert!(!space.tree.insert_entity(rock_at(v(0, 0, 0), 1)));
    assert_eq!(space.entity_count(), 2);
}

#[test]
fn expansion_pick_consumes_a_whole_corner() {
    // all three positive axes wanted: one step handles them all and the
    // former root belongs opposite the growth, in XnYnZn
    let mut dirs = vec![1usize, 1, 1, 0, 0, 0];
    let (q, consumed) = GrowableSpaceTree::pick_expansion_quadrant(&mut dirs);
    assert_eq!(q, Quadrant::XnYnZn);
    assert_eq!(consumed, 3);
    assert_eq!(dirs, vec![0usize, 0, 0, 0, 0, 0]);
    // opposite wants on one axis: the positive side wins and the negative
    // stays tallied for a later step
    let mut dirs = vec![1usize, 0, 0, 1, 0, 0];
    let (q, consumed) = GrowableSpaceTree::pick_expansion_quadrant(&mut dirs);
    assert_eq!(q, Quadrant::XnYpZp);
    assert_eq!(consumed, 1);
    assert_eq!(dirs, vec![0usize, 0, 0, 1, 0, 0]);
}

#[test]
fn pair_collision_applied_once() {
    let mut space = Space::new();
    assert!(space.tree.insert_entity(moving_rock(v(0, 0, 0), 100, v(1, 0, 0))));
    assert!(space.tree.insert_entity(moving_rock(v(150, 0, 0), 100, v(-1, 0, 0))));
    space.run();
    assert_eq!(space.entity_count(), 2);
    let ents = entities_of(&space);
    assert_eq!(ents.len(), 2);
    for e in ents.iter() {
        assert_eq!(e.2, 1);
    }
}

#[test]
fn conservation_counts_spawned_bodies() {
    let mut space = Space::new();
    let player = Player {
        control_forces: v(0, 0, 0),
        drop_block: true,
        drop_block_fixed: false,
    };
    assert!(space.tree.insert_entity(Entity::new_player(v(500, 0, 0), player)));
    assert_eq!(space.entity_count(), 1);
    space.run();
    // the controller asked for one drop: exactly one body appeared
    assert_eq!(space.entity_count(), 2);
    space.run();
    // the flag is still set, so each tick spawns one more
    assert_eq!(space.entity_count(), 3);
}

#[test]
fn controls_reach_every_agent() {
    let mut space = Space::new();
    assert!(space.tree.insert_entity(Entity::new_player(v(500, 0, 0), Player::new())));
    assert!(space.tree.insert_entity(rock_at(v(0, 0, 0), 1)));
    space.apply_controls(v(7, 0, 0), true, false);
    fn check(m: &MatterTree, found: &mut usize) {
        for e in m.entities.iter() {
            if let EntityData::Player(p) = &e.entity {
                assert_eq!(p.control_forces, Vec3 { x: 7, y: 0, z: 0 });
                assert!(p.drop_block);
                assert!(!p.drop_block_fixed);
                *found += 1;
            }
        }
        for slot in m.sub_trees.iter() {
            if let Some(c) = slot {
                check(c, found);
            }
        }
    }
    let mut found = 0;
    match space.tree.tree.as_ref() {
        SpaceTree::Matter(m) => check(m, &mut found),
        SpaceTree::Parent(_) => panic!("two fresh entities should fit one matter leaf"),
    }
    assert_eq!(found, 1);
}

#[test]
fn insertion_rejects_a_center_outside_the_matter_extent() {
    let mut space = Space::new();
    assert!(!space.tree.insert_entity(rock_at(v(5000, 0, 0), 1)));
    assert_eq!(space.entity_count(), 0);
    assert!(space.tree.insert_entity(rock_at(v(4000, 0, 0), 1)));
    assert_eq!(space.entity_count(), 1);
}

#[test]
fn refresh_conserves_and_prunes() {
    let mut m = MatterTree::new();
    let mut batch = Vec::new();
    batch.push(moving_rock(v(100, 100, 100), 1, v(0, 0, 0)));
    batch.push(moving_rock(v(-100, -100, -100), 1, v(0, 0, 0)));
    batch.push(moving_rock(v(5000, 0, 0), 1, v(0, 0, 0)));
    m.add_entities(batch);
    assert_eq!(m.nb_entities(), 3);
    let out = m.refresh();
    // the entity outside the root was evicted; the rest were kept
    assert_eq!(out.len(), 1);
    assert_eq!(out[0].bounding_sphere.center, v(5000, 0, 0));
    assert_eq!(m.nb_entities(), 2);
}
