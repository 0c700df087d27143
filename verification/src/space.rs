//! The whole simulated universe and its tick driver: one entry point runs the
//! per-tick pipeline of actions, integration, index refresh, and collisions.

use vstd::prelude::*;
use crate::matter_tree::{all_tick_moderate, movements_ok, spawns_ok};
use crate::space_tree::{
    root_tight, st_contained, st_ents, st_measure, st_no_empty, st_nodes, st_spawns, st_wf,
    GrowableSpaceTree,
};

verus! {

#[derive(Debug)]
pub struct Space {
    pub tree: GrowableSpaceTree,
}

impl Space {
    pub fn new() -> (r: Space)
        ensures
            st_wf(*r.tree.tree),
            st_ents(*r.tree.tree).len() == 0,
            st_no_empty(*r.tree.tree),
            (*r.tree.tree) is Matter,
    {
        Space { tree: GrowableSpaceTree::new() }
    }

    /// One simulation tick: run the controllers' actions, integrate motion,
    /// refresh the spatial index, and apply collisions. No entity is lost or
    /// duplicated: the population grows by exactly the number of voxel bodies
    /// the controllers asked to drop; afterwards no present node is empty and
    /// the root cannot be collapsed onto a single child.
    pub fn run(&mut self)
        requires
            st_wf(*old(self).tree.tree),
            spawns_ok(st_ents(*old(self).tree.tree)),
            movements_ok(st_ents(*old(self).tree.tree)),
            st_ents(*old(self).tree.tree).len() + st_spawns(*old(self).tree.tree) <= usize::MAX,
            st_measure(*old(self).tree.tree) + st_ents(*old(self).tree.tree).len() + st_spawns(
                *old(self).tree.tree,
            ) < u32::MAX,
        ensures
            st_wf(*final(self).tree.tree),
            st_ents(*final(self).tree.tree).len() == st_ents(*old(self).tree.tree).len()
                + st_spawns(*old(self).tree.tree),
            st_no_empty(*final(self).tree.tree),
            crate::space_tree::root_tight(*final(self).tree.tree),
            all_tick_moderate(st_ents(*old(self).tree.tree)) ==> st_contained(
                *final(self).tree.tree,
            ),
    {
        let ghost hyp = all_tick_moderate(st_ents(*old(self).tree.tree));
        self.tree.run_actions();
        let ghost acted = st_ents(*self.tree.tree);
        self.tree.run_movements();
        let ghost moved = st_ents(*self.tree.tree);
        proof {
            if hyp {
                // every integrated center is the pre-integration center plus
                // its velocity, which the hypothesis keeps within the band
                assert(crate::matter_tree::all_landing_moderate(acted));
                assert forall|k: int| 0 <= k < moved.len() implies crate::matter_tree::moderate(
                    #[trigger] moved[k],
                ) by {
                    assert(crate::matter_tree::integrated_rel()(acted[k], moved[k]));
                    assert(moved[k] == crate::entity::integrate(acted[k]));
                    assert(crate::matter_tree::landing_moderate(acted[k]));
                    assert(crate::matter_tree::movement_ok(acted[k]));
                }
            }
        }
        self.tree.refresh();
        let ghost refreshed = *self.tree.tree;
        self.tree.apply_neighbourhood_collisions();
        proof {
            crate::space_tree::lemma_st_collision_shape_no_empty(refreshed, *self.tree.tree);
            if hyp {
                crate::space_tree::lemma_st_collision_shape_contained(refreshed, *self.tree.tree);
            }
        }
    }

    /// Collect this frame's inputs: write the given control force and drop
    /// flags into every controlled agent. The front-end calls this between
    /// ticks; the tick itself only reads them.
    pub fn apply_controls(&mut self, forces: crate::geometry::Vec3, drop_block: bool, drop_fixed: bool)
        requires
            st_wf(*old(self).tree.tree),
        ensures
            st_wf(*final(self).tree.tree),
            crate::matter_tree::pointwise(
                crate::matter_tree::controls_rel(forces, drop_block, drop_fixed),
                st_ents(*old(self).tree.tree),
                st_ents(*final(self).tree.tree),
            ),
    {
        self.tree.apply_controls(forces, drop_block, drop_fixed);
    }

    /// How many matter cells the index currently holds, over all its matter
    /// trees.
    pub fn node_count(&self) -> (r: usize)
        requires
            st_wf(*self.tree.tree),
            st_nodes(*self.tree.tree) <= usize::MAX,
        ensures
            r == st_nodes(*self.tree.tree),
    {
        self.tree.nb_nodes()
    }

    /// How many entities the index currently holds.
    pub fn entity_count(&self) -> (r: usize)
        requires
            st_wf(*self.tree.tree),
            st_ents(*self.tree.tree).len() <= usize::MAX,
        ensures
            r == st_ents(*self.tree.tree).len(),
    {
        self.tree.nb_entities()
    }
}

} // verus!
