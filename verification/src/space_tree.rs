//! The growable octree whose leaves are matter trees: it gives the universe
//! unbounded extent by wrapping the root in a fresh parent whenever an entity
//! strays past it, and by collapsing parents again when the population
//! retreats.

use vstd::prelude::*;
use vstd::multiset::Multiset;
use crate::entity::Entity;
use crate::geometry::{FineDirection, Quadrant, Vec3};
use crate::matter_tree::{tree_ents, MatterTree, MAX_SCALE, MAX_SIZE};

verus! {

broadcast use
    vstd::seq_lib::group_to_multiset_ensures,
    vstd::multiset::group_multiset_axioms,
;

/// A node of the space tree: either a purely structural parent holding up to
/// eight children, or a leaf holding a whole matter tree.
#[derive(Debug)]
pub enum SpaceTree {
    Parent(SpaceTreeParent),
    Matter(MatterTree),
}

#[derive(Debug)]
pub struct SpaceTreeParent {
    pub scale: u32,
    pub sub_trees: Vec<Option<Box<SpaceTree>>>,
}

/// An entity in transit upward through the space tree: the axes on which it
/// overflowed, and the quadrant path that will guide it back down once a
/// common ancestor is reached.
#[derive(Debug)]
pub struct EntityToDisplaceUp {
    pub path: Vec<Quadrant>,
    pub direction: Vec3,
    pub entity: Entity,
}

/// An entity descending along a recorded quadrant path.
#[derive(Debug)]
pub struct EntityToDisplaceDown {
    pub path: Vec<Quadrant>,
    pub entity: Entity,
}

/// The area every matter leaf of the space tree uses: the full matter extent
/// centered on its own origin.
pub open spec fn matter_root_area(a: crate::geometry::Cube) -> bool {
    &&& a.size == MAX_SIZE
    &&& a.origin.x == -(MAX_SIZE as int) / 2
    &&& a.origin.y == -(MAX_SIZE as int) / 2
    &&& a.origin.z == -(MAX_SIZE as int) / 2
}

/// Structural well-formedness of a space tree: parents carry eight slots,
/// children sit one scale below, parents at scale zero have matter leaves,
/// and every matter leaf is a well-formed full-extent matter root.
pub open spec fn st_wf(t: SpaceTree) -> bool
    decreases t, 1int,
{
    match t {
        SpaceTree::Matter(m) => m.wf() && m.scale == MAX_SCALE && matter_root_area(m.area),
        SpaceTree::Parent(p) => p.sub_trees@.len() == 8 && st_children_wf(p.sub_trees@, p.scale, 0),
    }
}

pub open spec fn st_child_ok(o: Option<Box<SpaceTree>>, scale: u32) -> bool
    decreases o, 0int,
{
    match o {
        None => true,
        Some(c) => {
            &&& match *c {
                SpaceTree::Parent(q) => scale >= 1 && q.scale == scale - 1,
                SpaceTree::Matter(_) => scale == 0,
            }
            &&& st_wf(*c)
        },
    }
}

pub open spec fn st_children_wf(s: Seq<Option<Box<SpaceTree>>>, scale: u32, i: int) -> bool
    decreases s, 9 - i,
{
    i < 0 || i >= 8 || i >= s.len() || {
        &&& st_child_ok(s[i], scale)
        &&& st_children_wf(s, scale, i + 1)
    }
}

pub proof fn lemma_st_children_wf_iff(s: Seq<Option<Box<SpaceTree>>>, scale: u32, i: int)
    requires
        s.len() == 8,
        0 <= i <= 8,
    ensures
        st_children_wf(s, scale, i) <==> (forall|j: int|
            i <= j < 8 ==> st_child_ok(#[trigger] s[j], scale)),
    decreases 8 - i,
{
    if i < 8 {
        lemma_st_children_wf_iff(s, scale, i + 1);
    }
}

/// All entities in a space subtree, in leaf order.
pub open spec fn st_ents(t: SpaceTree) -> Seq<Entity>
    decreases t, 1int,
{
    match t {
        SpaceTree::Matter(m) => tree_ents(m),
        SpaceTree::Parent(p) => st_children_ents(p.sub_trees@, 0),
    }
}

pub open spec fn st_opt_ents(o: Option<Box<SpaceTree>>) -> Seq<Entity>
    decreases o, 0int,
{
    match o {
        None => Seq::empty(),
        Some(c) => st_ents(*c),
    }
}

pub open spec fn st_children_ents(s: Seq<Option<Box<SpaceTree>>>, i: int) -> Seq<Entity>
    decreases s, 9 - i,
{
    if i < 0 || i >= 8 || i >= s.len() {
        Seq::empty()
    } else {
        st_opt_ents(s[i]) + st_children_ents(s, i + 1)
    }
}

/// Slots beyond `i` alone determine the tail of the children's entities.
pub proof fn lemma_st_children_ents_agree(
    s1: Seq<Option<Box<SpaceTree>>>,
    s2: Seq<Option<Box<SpaceTree>>>,
    i: int,
)
    requires
        s1.len() == 8,
        s2.len() == 8,
        forall|j: int| i <= j < 8 ==> s1[j] == s2[j],
    ensures
        st_children_ents(s1, i) == st_children_ents(s2, i),
    decreases 9 - i,
{
    if 0 <= i < 8 {
        lemma_st_children_ents_agree(s1, s2, i + 1);
    }
}

/// Replacing one child slot exchanges exactly that slot's entity count.
pub proof fn lemma_st_children_ents_update(
    s: Seq<Option<Box<SpaceTree>>>,
    i: int,
    v: Option<Box<SpaceTree>>,
    j: int,
)
    requires
        s.len() == 8,
        0 <= j <= i < 8,
    ensures
        st_children_ents(s.update(i, v), j).len() + st_opt_ents(s[i]).len() == st_children_ents(
            s,
            j,
        ).len() + st_opt_ents(v).len(),
    decreases i - j,
{
    let s2 = s.update(i, v);
    if j < i {
        lemma_st_children_ents_update(s, i, v, j + 1);
        assert(s2[j] == s[j]);
    } else {
        lemma_st_children_ents_agree(s, s2, i + 1);
        assert(s2[i] == v);
    }
}

/// A row of absent children holds no entities.
pub proof fn lemma_st_children_ents_all_none(s: Seq<Option<Box<SpaceTree>>>, i: int)
    requires
        forall|j: int| 0 <= j < s.len() ==> s[j] is None,
    ensures
        st_children_ents(s, i).len() == 0,
    decreases 9 - i,
{
    if 0 <= i < 8 && i < s.len() {
        lemma_st_children_ents_all_none(s, i + 1);
        assert(s[i] is None);
        assert(st_children_ents(s, i) == st_opt_ents(s[i]) + st_children_ents(s, i + 1));
    }
}

/// How many slots of a parent's row are occupied, from `i` on.
pub open spec fn count_some(s: Seq<Option<Box<SpaceTree>>>, i: int) -> nat
    decreases s.len() - i,
{
    if i < 0 || i >= s.len() {
        0
    } else {
        (if s[i] is Some {
            1nat
        } else {
            0nat
        }) + count_some(s, i + 1)
    }
}

/// A structurally empty space node: a parent with no children, or a matter
/// leaf with nothing in it.
pub open spec fn st_is_empty(t: SpaceTree) -> bool {
    match t {
        SpaceTree::Matter(m) => m.spec_is_empty(),
        SpaceTree::Parent(p) => forall|j: int| 0 <= j < 8 ==> p.sub_trees@[j] is None,
    }
}

/// No present subtree of a space tree is empty, down to the matter cells.
pub open spec fn st_no_empty(t: SpaceTree) -> bool
    decreases t, 1int,
{
    match t {
        SpaceTree::Matter(m) => crate::matter_tree::no_empty_subtrees(m),
        SpaceTree::Parent(p) => st_no_empty_children(p.sub_trees@, 0),
    }
}

pub open spec fn st_no_empty_opt(o: Option<Box<SpaceTree>>) -> bool
    decreases o, 0int,
{
    match o {
        None => true,
        Some(c) => !st_is_empty(*c) && st_no_empty(*c),
    }
}

pub open spec fn st_no_empty_children(s: Seq<Option<Box<SpaceTree>>>, i: int) -> bool
    decreases s, 9 - i,
{
    i < 0 || i >= 8 || i >= s.len() || {
        &&& st_no_empty_opt(s[i])
        &&& st_no_empty_children(s, i + 1)
    }
}

pub proof fn lemma_st_no_empty_children_iff(s: Seq<Option<Box<SpaceTree>>>, i: int)
    requires
        s.len() == 8,
        0 <= i <= 8,
    ensures
        st_no_empty_children(s, i) <==> (forall|j: int|
            i <= j < 8 ==> st_no_empty_opt(#[trigger] s[j])),
    decreases 8 - i,
{
    if i < 8 {
        lemma_st_no_empty_children_iff(s, i + 1);
    }
}

/// A measure that shrinks from a parent to its children: one more than the
/// parent scale, zero at a matter leaf.
pub open spec fn st_measure(t: SpaceTree) -> nat {
    match t {
        SpaceTree::Matter(_) => 0,
        SpaceTree::Parent(p) => (p.scale + 1) as nat,
    }
}

/// The number of path entries an entity leaving the top of this tree carries,
/// one per parent level it has been lifted through.
pub open spec fn st_up_len(t: SpaceTree) -> nat {
    match t {
        SpaceTree::Matter(_) => 0,
        SpaceTree::Parent(p) => (p.scale + 1) as nat,
    }
}

/// What every upward-moving entity a refresh returns satisfies.
pub open spec fn up_ok(u: EntityToDisplaceUp, t: SpaceTree) -> bool {
    &&& crate::matter_tree::ent_in_range(u.entity)
    &&& -1 <= u.direction.x <= 1
    &&& -1 <= u.direction.y <= 1
    &&& -1 <= u.direction.z <= 1
    &&& u.path@.len() == st_up_len(t)
}

/// What every downward-moving entity handed to a relocation satisfies.
pub open spec fn down_ok(d: EntityToDisplaceDown, t: SpaceTree) -> bool {
    &&& crate::matter_tree::ent_in_range(d.entity)
    &&& d.path@.len() >= st_measure(t)
}

impl SpaceTree {
    /// A fresh universe: a single empty matter leaf.
    pub fn new() -> (r: SpaceTree)
        ensures
            st_wf(r),
            st_ents(r).len() == 0,
            st_no_empty(r),
            st_is_empty(r),
            r is Matter,
    {
        let m = MatterTree::new();
        proof {
            crate::matter_tree::lemma_children_ents_all_none(m.sub_trees@, 0);
            crate::matter_tree::lemma_no_empty_children_iff(m.sub_trees@, 0);
        }
        SpaceTree::Matter(m)
    }

    /// A parent one scale above this node, with no children yet.
    pub fn new_parent(&self) -> (r: SpaceTree)
        requires
            st_measure(*self) <= u32::MAX,
        ensures
            r matches SpaceTree::Parent(p) && p.sub_trees@.len() == 8 && (forall|j: int|
                0 <= j < 8 ==> p.sub_trees@[j] is None) && p.scale == st_measure(*self),
            st_wf(r),
            st_ents(r).len() == 0,
    {
        let scale = match self {
            SpaceTree::Parent(child) => child.scale + 1,
            SpaceTree::Matter(_) => 0,
        };
        let mut sub_trees: Vec<Option<Box<SpaceTree>>> = Vec::new();
        let mut i: usize = 0;
        while i < 8
            invariant
                i <= 8,
                sub_trees@.len() == i,
                forall|j: int| 0 <= j < i ==> sub_trees@[j] is None,
            decreases 8 - i,
        {
            sub_trees.push(None);
            i = i + 1;
        }
        let r = SpaceTree::Parent(SpaceTreeParent { scale, sub_trees });
        proof {
            let p = r->Parent_0;
            lemma_st_children_wf_iff(p.sub_trees@, p.scale, 0);
            lemma_st_children_ents_all_none(p.sub_trees@, 0);
        }
        r
    }

    pub fn is_empty(&self) -> (r: bool)
        requires
            st_wf(*self),
        ensures
            r == st_is_empty(*self),
    {
        match self {
            SpaceTree::Matter(matter) => matter.is_empty(),
            SpaceTree::Parent(parent) => {
                let mut i: usize = 0;
                let mut none_so_far = true;
                while i < 8
                    invariant
                        i <= 8,
                        parent.sub_trees@.len() == 8,
                        none_so_far == (forall|j: int| 0 <= j < i ==> parent.sub_trees@[j] is None),
                    decreases 8 - i,
                {
                    if parent.sub_trees[i].is_some() {
                        none_so_far = false;
                    }
                    i = i + 1;
                }
                none_so_far
            },
        }
    }

    /// The number of space nodes holding matter in this subtree: a matter
    /// leaf counts one.
    pub fn nb_nodes(&self) -> (r: usize)
        requires
            st_wf(*self),
            st_nodes(*self) <= usize::MAX,
        ensures
            r == st_nodes(*self),
        decreases st_measure(*self),
    {
        match self {
            SpaceTree::Matter(_) => 1,
            SpaceTree::Parent(parent) => {
                proof {
                    lemma_st_children_wf_iff(parent.sub_trees@, parent.scale, 0);
                }
                let mut count: usize = 0;
                let mut i: usize = 0;
                while i < 8
                    invariant
                        i <= 8,
                        st_wf(*self),
                        self is Parent,
                        parent == self->Parent_0,
                        parent.sub_trees@.len() == 8,
                        st_nodes(*self) <= usize::MAX,
                        forall|j: int|
                            0 <= j < 8 ==> st_child_ok(#[trigger] parent.sub_trees@[j], parent.scale),
                        count + st_children_nodes(parent.sub_trees@, i as int) == st_nodes(*self),
                    decreases 8 - i,
                {
                    proof {
                        assert(st_children_nodes(parent.sub_trees@, i as int) == st_opt_nodes(
                            parent.sub_trees@[i as int],
                        ) + st_children_nodes(parent.sub_trees@, i as int + 1));
                    }
                    match &parent.sub_trees[i] {
                        Some(c) => {
                            proof {
                                assert(st_child_ok(parent.sub_trees@[i as int], parent.scale));
                                assert(st_measure(**c) < st_measure(*self));
                            }
                            count = count + c.nb_nodes();
                        },
                        None => {},
                    }
                    i = i + 1;
                }
                count
            },
        }
    }

    /// The number of matter cells over all the matter trees of this subtree.
    pub fn nb_matter_nodes(&self) -> (r: usize)
        requires
            st_wf(*self),
            st_matter_nodes(*self) <= usize::MAX,
        ensures
            r == st_matter_nodes(*self),
        decreases st_measure(*self),
    {
        match self {
            SpaceTree::Matter(matter) => matter.nb_nodes(),
            SpaceTree::Parent(parent) => {
                proof {
                    lemma_st_children_wf_iff(parent.sub_trees@, parent.scale, 0);
                }
                let mut count: usize = 0;
                let mut i: usize = 0;
                while i < 8
                    invariant
                        i <= 8,
                        st_wf(*self),
                        self is Parent,
                        parent == self->Parent_0,
                        parent.sub_trees@.len() == 8,
                        st_matter_nodes(*self) <= usize::MAX,
                        forall|j: int|
                            0 <= j < 8 ==> st_child_ok(#[trigger] parent.sub_trees@[j], parent.scale),
                        count + st_children_matter_nodes(parent.sub_trees@, i as int)
                            == st_matter_nodes(*self),
                    decreases 8 - i,
                {
                    proof {
                        assert(st_children_matter_nodes(parent.sub_trees@, i as int)
                            == st_opt_matter_nodes(parent.sub_trees@[i as int])
                            + st_children_matter_nodes(parent.sub_trees@, i as int + 1));
                    }
                    match &parent.sub_trees[i] {
                        Some(c) => {
                            proof {
                                assert(st_child_ok(parent.sub_trees@[i as int], parent.scale));
                            }
                            count = count + c.nb_matter_nodes();
                        },
                        None => {},
                    }
                    i = i + 1;
                }
                count
            },
        }
    }

    /// The number of entities in this subtree.
    pub fn nb_entities(&self) -> (r: usize)
        requires
            st_wf(*self),
            st_ents(*self).len() <= usize::MAX,
        ensures
            r == st_ents(*self).len(),
        decreases st_measure(*self),
    {
        match self {
            SpaceTree::Matter(matter) => matter.nb_entities(),
            SpaceTree::Parent(parent) => {
                proof {
                    lemma_st_children_wf_iff(parent.sub_trees@, parent.scale, 0);
                }
                let mut count: usize = 0;
                let mut i: usize = 0;
                while i < 8
                    invariant
                        i <= 8,
                        st_wf(*self),
                        self is Parent,
                        parent == self->Parent_0,
                        parent.sub_trees@.len() == 8,
                        st_ents(*self).len() <= usize::MAX,
                        forall|j: int|
                            0 <= j < 8 ==> st_child_ok(#[trigger] parent.sub_trees@[j], parent.scale),
                        count + st_children_ents(parent.sub_trees@, i as int).len() == st_ents(
                            *self,
                        ).len(),
                    decreases 8 - i,
                {
                    proof {
                        assert(st_children_ents(parent.sub_trees@, i as int) == st_opt_ents(
                            parent.sub_trees@[i as int],
                        ) + st_children_ents(parent.sub_trees@, i as int + 1));
                    }
                    match &parent.sub_trees[i] {
                        Some(c) => {
                            proof {
                                assert(st_child_ok(parent.sub_trees@[i as int], parent.scale));
                            }
                            count = count + c.nb_entities();
                        },
                        None => {},
                    }
                    i = i + 1;
                }
                count
            },
        }
    }
}

/// Every matter leaf of a space subtree has no empty cells inside it.
pub open spec fn st_matter_ok(t: SpaceTree) -> bool
    decreases t, 1int,
{
    match t {
        SpaceTree::Matter(m) => crate::matter_tree::no_empty_subtrees(m),
        SpaceTree::Parent(p) => st_matter_ok_children(p.sub_trees@, 0),
    }
}

pub open spec fn st_matter_ok_opt(o: Option<Box<SpaceTree>>) -> bool
    decreases o, 0int,
{
    match o {
        None => true,
        Some(c) => st_matter_ok(*c),
    }
}

pub open spec fn st_matter_ok_children(s: Seq<Option<Box<SpaceTree>>>, i: int) -> bool
    decreases s, 9 - i,
{
    i < 0 || i >= 8 || i >= s.len() || {
        &&& st_matter_ok_opt(s[i])
        &&& st_matter_ok_children(s, i + 1)
    }
}

pub proof fn lemma_st_matter_ok_children_iff(s: Seq<Option<Box<SpaceTree>>>, i: int)
    requires
        s.len() == 8,
        0 <= i <= 8,
    ensures
        st_matter_ok_children(s, i) <==> (forall|j: int|
            i <= j < 8 ==> st_matter_ok_opt(#[trigger] s[j])),
    decreases 8 - i,
{
    if i < 8 {
        lemma_st_matter_ok_children_iff(s, i + 1);
    }
}

/// An empty space subtree holds no entities.
pub proof fn lemma_st_empty_no_ents(t: SpaceTree)
    requires
        st_wf(t),
        st_is_empty(t),
    ensures
        st_ents(t).len() == 0,
{
    match t {
        SpaceTree::Matter(m) => {
            crate::matter_tree::lemma_empty_tree_no_ents(m);
        },
        SpaceTree::Parent(p) => {
            lemma_st_children_ents_all_none(p.sub_trees@, 0);
        },
    }
}

/// In a row with a single occupied slot, that slot holds all the entities.
pub proof fn lemma_st_children_single(s: Seq<Option<Box<SpaceTree>>>, i: int, j: int)
    requires
        s.len() == 8,
        0 <= i < 8,
        s[i] is Some,
        forall|k: int| 0 <= k < 8 && k != i ==> s[k] is None,
        0 <= j <= 8,
    ensures
        st_children_ents(s, j).len() == (if j <= i {
            st_opt_ents(s[i]).len()
        } else {
            0
        }),
    decreases 8 - j,
{
    if j < 8 {
        lemma_st_children_single(s, i, j + 1);
        if j != i {
            assert(s[j] is None);
        }
        assert(st_children_ents(s, j) == st_opt_ents(s[j]) + st_children_ents(s, j + 1));
    }
}

/// The total entities over a row of per-octant descent batches, from `i` on.
pub open spec fn downs_total(s: Seq<Vec<EntityToDisplaceDown>>, i: int) -> nat
    decreases s.len() - i,
{
    if i < 0 || i >= s.len() {
        0
    } else {
        s[i]@.len() + downs_total(s, i + 1)
    }
}

pub proof fn lemma_downs_total_pop(s: Seq<Vec<EntityToDisplaceDown>>, i: int)
    requires
        0 <= i < s.len(),
    ensures
        downs_total(s, i) == downs_total(s.drop_last(), i) + s[s.len() - 1]@.len(),
    decreases s.len() - i,
{
    assert(downs_total(s, i) == s[i]@.len() + downs_total(s, i + 1));
    if i < s.len() - 1 {
        lemma_downs_total_pop(s, i + 1);
        assert(s.drop_last()[i] == s[i]);
        assert(downs_total(s.drop_last(), i) == s.drop_last()[i]@.len() + downs_total(
            s.drop_last(),
            i + 1,
        ));
    } else {
        assert(downs_total(s, i + 1) == 0);
        assert(downs_total(s.drop_last(), i) == 0);
    }
}

pub proof fn lemma_downs_total_agree(
    s1: Seq<Vec<EntityToDisplaceDown>>,
    s2: Seq<Vec<EntityToDisplaceDown>>,
    i: int,
)
    requires
        s1.len() == s2.len(),
        forall|j: int| i <= j < s1.len() ==> s1[j] == s2[j],
    ensures
        downs_total(s1, i) == downs_total(s2, i),
    decreases s1.len() - i,
{
    if 0 <= i < s1.len() {
        lemma_downs_total_agree(s1, s2, i + 1);
    } else if i < 0 {
        lemma_downs_total_agree(s1, s2, 0);
        assert(downs_total(s1, i) == 0);
        assert(downs_total(s2, i) == 0);
    }
}

pub proof fn lemma_downs_total_update(
    s: Seq<Vec<EntityToDisplaceDown>>,
    i: int,
    v: Vec<EntityToDisplaceDown>,
    j: int,
)
    requires
        0 <= j <= i < s.len(),
    ensures
        downs_total(s.update(i, v), j) + s[i]@.len() == downs_total(s, j) + v@.len(),
    decreases i - j,
{
    let s2 = s.update(i, v);
    if j < i {
        lemma_downs_total_update(s, i, v, j + 1);
        assert(s2[j] == s[j]);
    } else {
        lemma_downs_total_agree(s, s2, i + 1);
        assert(s2[i] == v);
    }
}

/// The number of matter leaves of a space subtree.
pub open spec fn st_nodes(t: SpaceTree) -> nat
    decreases t, 1int,
{
    match t {
        SpaceTree::Matter(_) => 1,
        SpaceTree::Parent(p) => st_children_nodes(p.sub_trees@, 0),
    }
}

pub open spec fn st_opt_nodes(o: Option<Box<SpaceTree>>) -> nat
    decreases o, 0int,
{
    match o {
        None => 0,
        Some(c) => st_nodes(*c),
    }
}

pub open spec fn st_children_nodes(s: Seq<Option<Box<SpaceTree>>>, i: int) -> nat
    decreases s, 9 - i,
{
    if i < 0 || i >= 8 || i >= s.len() {
        0
    } else {
        st_opt_nodes(s[i]) + st_children_nodes(s, i + 1)
    }
}

/// The number of matter cells over all the matter trees of a space subtree.
pub open spec fn st_matter_nodes(t: SpaceTree) -> nat
    decreases t, 1int,
{
    match t {
        SpaceTree::Matter(m) => crate::matter_tree::tree_nodes(m),
        SpaceTree::Parent(p) => st_children_matter_nodes(p.sub_trees@, 0),
    }
}

pub open spec fn st_opt_matter_nodes(o: Option<Box<SpaceTree>>) -> nat
    decreases o, 0int,
{
    match o {
        None => 0,
        Some(c) => st_matter_nodes(*c),
    }
}

pub open spec fn st_children_matter_nodes(s: Seq<Option<Box<SpaceTree>>>, i: int) -> nat
    decreases s, 9 - i,
{
    if i < 0 || i >= 8 || i >= s.len() {
        0
    } else {
        st_opt_matter_nodes(s[i]) + st_children_matter_nodes(s, i + 1)
    }
}

/// Rescaling an entity that left the matter extent keeps it in range: the
/// shift moves it one cell toward the origin on each overflowing axis.
pub proof fn lemma_switch_in_range(c: int, size: int)
    requires
        size == MAX_SIZE,
        -0x4000_0000_0000_0000 + 2 * MAX_SIZE <= c <= 0x4000_0000_0000_0000 - 2 * MAX_SIZE,
    ensures
        -0x4000_0000_0000_0000 + 2 * MAX_SIZE <= c - (crate::geometry::spec_component(
            c,
            crate::geometry::div_trunc(size, 2),
        ) - 1) * size <= 0x4000_0000_0000_0000 - 2 * MAX_SIZE,
        i64::MIN <= (crate::geometry::spec_component(c, crate::geometry::div_trunc(size, 2)) - 1)
            * size <= i64::MAX,
{
}

/// The coordinate bound after a matter-tree boundary crossing: a coordinate
/// that overflowed by less than a whole extra cell is brought back strictly
/// inside one cell's span on that axis.
pub proof fn lemma_switch_coordinate_bound(c: int, size: int)
    requires
        size == MAX_SIZE,
        -2 * MAX_SIZE < c < 2 * MAX_SIZE,
    ensures
        ({
            let shifted = c - (crate::geometry::spec_component(
                c,
                crate::geometry::div_trunc(size, 2),
            ) - 1) * size;
            -MAX_SIZE < shifted < MAX_SIZE
        }),
{
}

/// Matching an octant built from a direction's own signs always succeeds.
pub proof fn lemma_match_own_direction(d: Vec3)
    ensures
        crate::geometry::quadrant_from_signs(d.x > 0, d.y > 0, d.z > 0).spec_match_direction(d),
{
}

impl SpaceTree {
    /// Turn an entity the matter root evicted into an upward-moving record:
    /// note the axes it overflowed on, and re-express its position relative
    /// to the neighbor cell it is heading into.
    fn get_displaced_outsider(entity: Entity) -> (r: EntityToDisplaceUp)
        requires
            crate::matter_tree::ent_in_range(entity),
        ensures
            r.path@.len() == 0,
            r.direction == crate::geometry::outsider_dir(
                entity.bounding_sphere.center,
                MAX_SIZE as int,
            ),
            -1 <= r.direction.x <= 1,
            -1 <= r.direction.y <= 1,
            -1 <= r.direction.z <= 1,
            crate::matter_tree::ent_in_range(r.entity),
            r.entity.bounding_sphere.center.x == entity.bounding_sphere.center.x - r.direction.x
                * MAX_SIZE,
            r.entity.bounding_sphere.center.y == entity.bounding_sphere.center.y - r.direction.y
                * MAX_SIZE,
            r.entity.bounding_sphere.center.z == entity.bounding_sphere.center.z - r.direction.z
                * MAX_SIZE,
            r.entity.bounding_sphere.radius == entity.bounding_sphere.radius,
            r.entity.speed == entity.speed,
            r.entity.mass == entity.mass,
            r.entity.entity == entity.entity,
            r.entity.collision_count == entity.collision_count,
    {
        let mut entity = entity;
        let direction = FineDirection::outsider_direction_vec(
            &entity.bounding_sphere.center,
            MAX_SIZE,
        );
        proof {
            lemma_switch_in_range(entity.bounding_sphere.center.x as int, MAX_SIZE as int);
            lemma_switch_in_range(entity.bounding_sphere.center.y as int, MAX_SIZE as int);
            lemma_switch_in_range(entity.bounding_sphere.center.z as int, MAX_SIZE as int);
        }
        entity.switch_space_tree(direction, MAX_SIZE);
        EntityToDisplaceUp { path: Vec::new(), direction, entity }
    }

    /// A fresh child for a parent of the given scale: a matter leaf at the
    /// bottom, an empty parent otherwise.
    fn build_sub_tree(scale: u32) -> (r: SpaceTree)
        requires
            scale >= 1 || scale == 0,
        ensures
            st_wf(r),
            st_ents(r).len() == 0,
            st_matter_ok(r),
            st_contained(r),
            scale == 0 ==> r is Matter,
            scale >= 1 ==> (r matches SpaceTree::Parent(p) && p.scale == scale - 1),
    {
        if scale == 0 {
            let r = SpaceTree::new();
            proof {
                let m = r->Matter_0;
                crate::matter_tree::lemma_no_empty_children_iff(m.sub_trees@, 0);
                crate::matter_tree::lemma_contained_children_iff(m.sub_trees@, 0);
            }
            r
        } else {
            let mut sub_trees: Vec<Option<Box<SpaceTree>>> = Vec::new();
            let mut i: usize = 0;
            while i < 8
                invariant
                    i <= 8,
                    sub_trees@.len() == i,
                    forall|j: int| 0 <= j < i ==> sub_trees@[j] is None,
                decreases 8 - i,
            {
                sub_trees.push(None);
                i = i + 1;
            }
            let r = SpaceTree::Parent(SpaceTreeParent { scale: scale - 1, sub_trees });
            proof {
                let p = r->Parent_0;
                lemma_st_children_wf_iff(p.sub_trees@, p.scale, 0);
                lemma_st_children_ents_all_none(p.sub_trees@, 0);
                lemma_st_matter_ok_children_iff(p.sub_trees@, 0);
                lemma_st_contained_children_iff(p.sub_trees@, 0);
            }
            r
        }
    }

    /// Send a batch of descending entities down their recorded quadrant
    /// paths, creating the nodes along the way as needed, until each reaches
    /// a matter leaf and is stored there.
    pub fn relocate_entities(self, entities: Vec<EntityToDisplaceDown>) -> (r: SpaceTree)
        requires
            st_wf(self),
            st_matter_ok(self),
            forall|k: int| 0 <= k < entities@.len() ==> down_ok(#[trigger] entities@[k], self),
            st_ents(self).len() + entities@.len() <= usize::MAX,
        ensures
            st_wf(r),
            st_measure(r) == st_measure(self),
            r is Parent <==> self is Parent,
            st_ents(r).len() == st_ents(self).len() + entities@.len(),
            st_matter_ok(r),
            (st_contained(self) && all_in_home_band(entities@)) ==> st_contained(r),
            self is Parent ==> (forall|q: int|
                0 <= q < 8 ==> st_opt_ents((#[trigger] r->Parent_0.sub_trees@[q])).len()
                    == st_opt_ents(self->Parent_0.sub_trees@[q]).len() + downs_to(entities@, q)),
        decreases st_measure(self),
    {
        let ghost hyp = st_contained(self) && all_in_home_band(entities@);
        match self {
            SpaceTree::Matter(mut matter) => {
                let ghost m0 = matter;
                let ghost input = entities@;
                let mut entities = entities;
                let mut plain: Vec<Entity> = Vec::new();
                while entities.len() > 0
                    invariant
                        hyp == (st_contained(SpaceTree::Matter(m0)) && all_in_home_band(input)),
                        plain@.len() + entities@.len() == input.len(),
                        entities@ == input.subrange(0, entities@.len() as int),
                        crate::matter_tree::ents_in_range(plain@),
                        forall|k: int|
                            0 <= k < entities@.len() ==> crate::matter_tree::ent_in_range(
                                (#[trigger] entities@[k]).entity,
                            ),
                        hyp ==> (forall|k: int|
                            0 <= k < plain@.len() ==> in_home_band(#[trigger] plain@[k])),
                    decreases entities@.len(),
                {
                    let ghost plain_pre = plain@;
                    let ghost ents_pre = entities@;
                    let d = entities.pop().unwrap();
                    plain.push(d.entity);
                    proof {
                        crate::matter_tree::lemma_range_push(plain_pre, d.entity);
                        assert(entities@ =~= input.subrange(0, entities@.len() as int));
                        assert(d == input[ents_pre.len() - 1]);
                        if hyp {
                            assert(in_home_band(d.entity));
                            assert forall|k: int| 0 <= k < plain@.len() implies in_home_band(
                                #[trigger] plain@[k],
                            ) by {
                                if k < plain_pre.len() {
                                    assert(plain@[k] == plain_pre[k]);
                                } else {
                                    assert(plain@[k] == d.entity);
                                }
                            }
                        }
                    }
                }
                let ghost tm0 = tree_ents(matter).to_multiset();
                let ghost plain_g = plain@;
                proof {
                    if hyp {
                        assert forall|k: int|
                            0 <= k < plain_g.len() implies crate::matter_tree::admissible(
                            #[trigger] plain_g[k],
                            matter.scale,
                            matter.area,
                        ) by {
                            lemma_home_band_admissible(plain_g[k], matter);
                        }
                    }
                }
                matter.add_entities(plain);
                proof {
                    crate::matter_tree::lemma_ms_len_split(
                        tree_ents(matter).to_multiset(),
                        tm0,
                        plain_g.to_multiset(),
                    );
                    if hyp {
                        assert(crate::matter_tree::all_admissible(plain_g, m0.scale, m0.area));
                        assert(crate::matter_tree::contained(m0));
                        assert(crate::matter_tree::contained(matter));
                        assert(st_contained(SpaceTree::Matter(matter)));
                    }
                }
                SpaceTree::Matter(matter)
            },
            SpaceTree::Parent(parent) => {
                let ghost p0 = parent;
                let ghost input = entities@;
                let mut parent = parent;
                proof {
                    lemma_st_children_wf_iff(p0.sub_trees@, p0.scale, 0);
                    lemma_st_matter_ok_children_iff(p0.sub_trees@, 0);
                    if hyp {
                        lemma_st_contained_children_iff(p0.sub_trees@, 0);
                    }
                }
                let mut buckets: Vec<Vec<EntityToDisplaceDown>> = Vec::new();
                let mut bi: usize = 0;
                while bi < 8
                    invariant
                        bi <= 8,
                        buckets@.len() == bi,
                        forall|j: int| 0 <= j < bi ==> (#[trigger] buckets@[j])@.len() == 0,
                    decreases 8 - bi,
                {
                    buckets.push(Vec::new());
                    bi = bi + 1;
                }
                proof {
                    lemma_downs_all_empty(buckets@, 0);
                }
                let mut entities = entities;
                while entities.len() > 0
                    invariant
                        hyp == (st_contained(SpaceTree::Parent(p0)) && all_in_home_band(input)),
                        parent == p0,
                        buckets@.len() == 8,
                        downs_total(buckets@, 0) + entities@.len() == input.len(),
                        forall|q: int|
                            0 <= q < 8 ==> (#[trigger] buckets@[q])@.len() + downs_to(entities@, q)
                                == downs_to(input, q),
                        entities@ == input.subrange(0, entities@.len() as int),
                        forall|k: int|
                            0 <= k < entities@.len() ==> crate::matter_tree::ent_in_range(
                                (#[trigger] entities@[k]).entity,
                            ),
                        forall|k: int|
                            0 <= k < entities@.len() ==> (#[trigger] entities@[k]).path@.len()
                                >= p0.scale + 1,
                        forall|j: int, k: int|
                            0 <= j < 8 && 0 <= k < buckets@[j]@.len()
                                ==> crate::matter_tree::ent_in_range(
                                (#[trigger] buckets@[j]@[k]).entity,
                            ) && buckets@[j]@[k].path@.len() >= p0.scale,
                        hyp ==> (forall|j: int, k: int|
                            0 <= j < 8 && 0 <= k < buckets@[j]@.len() ==> in_home_band(
                                (#[trigger] buckets@[j]@[k]).entity,
                            )),
                    decreases entities@.len(),
                {
                    let ghost ents_pre = entities@;
                    let mut d = entities.pop().unwrap();
                    let ghost d0 = d;
                    let q = d.path.pop().unwrap();
                    let qi = q.to_index();
                    let ghost bpre = buckets@;
                    buckets[qi].push(d);
                    proof {
                        assert(entities@ =~= input.subrange(0, entities@.len() as int));
                        assert(entities@ == ents_pre.drop_last());
                        assert(d0 == ents_pre.last());
                        assert(d0 == input[ents_pre.len() - 1]);
                        assert(d.entity == d0.entity);
                        assert(d0.path@.len() > 0);
                        assert(q == d0.path@.last());
                        crate::geometry::lemma_quadrant_from_own_idx(q);
                        assert forall|q2: int|
                            0 <= q2 < 8 implies (#[trigger] buckets@[q2])@.len() + downs_to(
                            entities@,
                            q2,
                        ) == downs_to(input, q2) by {
                            assert(downs_to(ents_pre, q2) == downs_to(entities@, q2) + (
                            if d0.path@.last().idx() == q2 {
                                1nat
                            } else {
                                0nat
                            }));
                            if q2 != qi {
                                assert(buckets@[q2] == bpre[q2]);
                            }
                        }
                        assert(buckets@ =~= bpre.update(qi as int, buckets@[qi as int]));
                        assert(buckets@[qi as int]@ =~= bpre[qi as int]@.push(d));
                        lemma_downs_total_update(bpre, qi as int, buckets@[qi as int], 0);
                        assert forall|j: int, k: int|
                            0 <= j < 8 && 0 <= k < buckets@[j]@.len()
                                implies crate::matter_tree::ent_in_range(
                                (#[trigger] buckets@[j]@[k]).entity,
                            ) && buckets@[j]@[k].path@.len() >= p0.scale by {
                            if j != qi {
                                assert(buckets@[j] == bpre[j]);
                            } else {
                                if k < bpre[j]@.len() {
                                    assert(buckets@[j]@[k] == bpre[j]@[k]);
                                } else {
                                    assert(buckets@[j]@[k] == d);
                                }
                            }
                        }
                        if hyp {
                            assert(in_home_band(d0.entity));
                            assert forall|j: int, k: int|
                                0 <= j < 8 && 0 <= k < buckets@[j]@.len() implies in_home_band(
                                (#[trigger] buckets@[j]@[k]).entity,
                            ) by {
                                if j != qi {
                                    assert(buckets@[j] == bpre[j]);
                                } else {
                                    if k < bpre[j]@.len() {
                                        assert(buckets@[j]@[k] == bpre[j]@[k]);
                                    } else {
                                        assert(buckets@[j]@[k] == d);
                                    }
                                }
                            }
                        }
                    }
                }
                // descend bucket by bucket
                while buckets.len() > 0
                    invariant
                        hyp == (st_contained(SpaceTree::Parent(p0)) && all_in_home_band(input)),
                        st_measure(self) == p0.scale + 1,
                        parent.scale == p0.scale,
                        parent.sub_trees@.len() == 8,
                        buckets@.len() <= 8,
                        st_ents(SpaceTree::Parent(p0)).len() + input.len() <= usize::MAX,
                        forall|j: int|
                            0 <= j < 8 ==> st_child_ok(#[trigger] parent.sub_trees@[j], p0.scale),
                        forall|j: int|
                            0 <= j < 8 ==> st_matter_ok_opt(#[trigger] parent.sub_trees@[j]),
                        hyp ==> (forall|j: int|
                            0 <= j < 8 ==> st_contained_opt(#[trigger] parent.sub_trees@[j])),
                        forall|j: int, k: int|
                            0 <= j < 8 && j < buckets@.len() && 0 <= k < buckets@[j]@.len()
                                ==> crate::matter_tree::ent_in_range(
                                (#[trigger] buckets@[j]@[k]).entity,
                            ) && buckets@[j]@[k].path@.len() >= p0.scale,
                        hyp ==> (forall|j: int, k: int|
                            0 <= j < 8 && j < buckets@.len() && 0 <= k < buckets@[j]@.len()
                                ==> in_home_band((#[trigger] buckets@[j]@[k]).entity)),
                        forall|q: int|
                            0 <= q < 8 && q < buckets@.len() ==> (#[trigger] buckets@[q])@.len()
                                == downs_to(input, q),
                        forall|q: int|
                            0 <= q < 8 && q < buckets@.len() ==> st_opt_ents(
                                (#[trigger] parent.sub_trees@[q]),
                            ).len() == st_opt_ents(p0.sub_trees@[q]).len(),
                        forall|q: int|
                            buckets@.len() <= q < 8 ==> st_opt_ents(
                                (#[trigger] parent.sub_trees@[q]),
                            ).len() == st_opt_ents(p0.sub_trees@[q]).len() + downs_to(input, q),
                        st_children_ents(parent.sub_trees@, 0).len() + downs_total(buckets@, 0)
                            == st_children_ents(p0.sub_trees@, 0).len() + input.len(),
                    decreases buckets@.len(),
                {
                    let ghost bpre = buckets@;
                    let qi = buckets.len() - 1;
                    let bucket = buckets.pop().unwrap();
                    proof {
                        lemma_downs_total_pop(bpre, 0);
                        assert(buckets@ =~= bpre.drop_last());
                        assert(bucket@ == bpre[qi as int]@);
                    }
                    if bucket.len() > 0 {
                        let ghost s_a = parent.sub_trees@;
                        if parent.sub_trees[qi].is_none() {
                            let c = SpaceTree::build_sub_tree(parent.scale);
                            parent.sub_trees[qi] = Some(Box::new(c));
                            proof {
                                assert(parent.sub_trees@ =~= s_a.update(
                                    qi as int,
                                    parent.sub_trees@[qi as int],
                                ));
                                lemma_st_children_ents_update(
                                    s_a,
                                    qi as int,
                                    parent.sub_trees@[qi as int],
                                    0,
                                );
                                assert(st_opt_ents(parent.sub_trees@[qi as int]).len() == 0);
                                assert(st_opt_ents(s_a[qi as int]).len() == 0);
                                assert forall|j: int| 0 <= j < 8 implies st_child_ok(
                                    #[trigger] parent.sub_trees@[j],
                                    p0.scale,
                                ) && st_matter_ok_opt(parent.sub_trees@[j]) by {
                                    if j != qi {
                                        assert(parent.sub_trees@[j] == s_a[j]);
                                    }
                                }
                                if hyp {
                                    assert forall|j: int| 0 <= j < 8 implies st_contained_opt(
                                        #[trigger] parent.sub_trees@[j],
                                    ) by {
                                        if j != qi {
                                            assert(parent.sub_trees@[j] == s_a[j]);
                                        }
                                    }
                                }
                            }
                        }
                        let ghost s_b = parent.sub_trees@;
                        let mut child_opt = parent.sub_trees[qi].take();
                        let child_box = child_opt.unwrap();
                        let ghost child0 = *child_box;
                        let ghost s_c = parent.sub_trees@;
                        proof {
                            assert(st_child_ok(s_b[qi as int], p0.scale));
                            assert(st_wf(child0));
                            assert(st_matter_ok(child0));
                            assert(st_measure(child0) < st_measure(SpaceTree::Parent(p0)));
                            assert(st_measure(child0) <= p0.scale);
                            assert(s_c =~= s_b.update(qi as int, None));
                            lemma_st_children_ents_update(s_b, qi as int, None, 0);
                            assert(st_opt_ents(s_b[qi as int]) == st_ents(child0));
                            assert forall|k: int| 0 <= k < bucket@.len() implies down_ok(
                                #[trigger] bucket@[k],
                                child0,
                            ) by {
                                assert(bucket@[k] == bpre[qi as int]@[k]);
                            }
                            assert(st_ents(child0).len() + bucket@.len() <= usize::MAX);
                            if hyp {
                                assert(st_contained_opt(s_b[qi as int]));
                                assert forall|k: int| 0 <= k < bucket@.len() implies in_home_band(
                                    (#[trigger] bucket@[k]).entity,
                                ) by {
                                    assert(bucket@[k] == bpre[qi as int]@[k]);
                                }
                            }
                        }
                        let new_child = (*child_box).relocate_entities(bucket);
                        parent.sub_trees[qi] = Some(Box::new(new_child));
                        proof {
                            let s_d = parent.sub_trees@;
                            assert(s_d =~= s_c.update(qi as int, s_d[qi as int]));
                            lemma_st_children_ents_update(s_c, qi as int, s_d[qi as int], 0);
                            assert(st_opt_ents(s_c[qi as int]).len() == 0);
                            assert forall|j: int| 0 <= j < 8 implies st_child_ok(
                                #[trigger] s_d[j],
                                p0.scale,
                            ) && st_matter_ok_opt(s_d[j]) by {
                                if j != qi {
                                    assert(s_d[j] == s_b[j]);
                                }
                            }
                            if hyp {
                                assert forall|j: int| 0 <= j < 8 implies st_contained_opt(
                                    #[trigger] s_d[j],
                                ) by {
                                    if j != qi {
                                        assert(s_d[j] == s_b[j]);
                                    }
                                }
                            }
                        }
                    }
                }
                let r = SpaceTree::Parent(parent);
                proof {
                    let p1 = r->Parent_0;
                    lemma_st_children_wf_iff(p1.sub_trees@, p1.scale, 0);
                    lemma_st_matter_ok_children_iff(p1.sub_trees@, 0);
                    if hyp {
                        lemma_st_contained_children_iff(p1.sub_trees@, 0);
                        assert(st_contained(r));
                    }
                }
                r
            },
        }
    }

    /// The per-tick relocation pass over the space tree. A matter leaf runs
    /// its own pass and rescales every evicted entity toward its neighbor
    /// cell; a parent refreshes its children, routes what they evict into the
    /// sibling octant it is heading for, and lifts the rest one level higher
    /// with the mirrored octant recorded on its descent path.
    #[verifier::rlimit(100)]
    #[verifier::spinoff_prover]
    pub fn refresh(self) -> (r: (SpaceTree, Vec<EntityToDisplaceUp>))
        requires
            st_wf(self),
            st_ents(self).len() <= usize::MAX,
        ensures
            st_wf(r.0),
            st_measure(r.0) == st_measure(self),
            r.0 is Parent <==> self is Parent,
            st_ents(r.0).len() + r.1@.len() == st_ents(self).len(),
            st_matter_ok(r.0),
            forall|k: int| 0 <= k < r.1@.len() ==> up_ok(#[trigger] r.1@[k], r.0),
            crate::matter_tree::all_moderate(st_ents(self)) ==> st_contained(r.0),
            crate::matter_tree::all_moderate(st_ents(self)) ==> (forall|k: int|
                0 <= k < r.1@.len() ==> in_home_band((#[trigger] r.1@[k]).entity)),
        decreases st_measure(self),
    {
        let ghost hyp = crate::matter_tree::all_moderate(st_ents(self));
        match self {
            SpaceTree::Matter(mut cell) => {
                let ghost c0 = cell;
                let mut outs = cell.refresh();
                proof {
                    crate::matter_tree::lemma_ms_len_split(
                        tree_ents(c0).to_multiset(),
                        tree_ents(cell).to_multiset(),
                        outs@.to_multiset(),
                    );
                    if hyp {
                        assert(crate::matter_tree::all_moderate(outs@));
                    }
                }
                let mut ups: Vec<EntityToDisplaceUp> = Vec::new();
                let ghost outs0 = outs@;
                while outs.len() > 0
                    invariant
                        hyp ==> crate::matter_tree::all_moderate(outs0),
                        outs@ == outs0.subrange(0, outs@.len() as int),
                        ups@.len() + outs@.len() == outs0.len(),
                        crate::matter_tree::ents_in_range(outs@),
                        forall|k: int|
                            0 <= k < ups@.len() ==> {
                                let u = #[trigger] ups@[k];
                                &&& u.path@.len() == 0
                                &&& -1 <= u.direction.x <= 1
                                &&& -1 <= u.direction.y <= 1
                                &&& -1 <= u.direction.z <= 1
                                &&& crate::matter_tree::ent_in_range(u.entity)
                            },
                        hyp ==> (forall|k: int|
                            0 <= k < ups@.len() ==> in_home_band((#[trigger] ups@[k]).entity)),
                    decreases outs@.len(),
                {
                    let ghost outs_pre = outs@;
                    let ghost ups_pre = ups@;
                    let e = outs.pop().unwrap();
                    proof {
                        assert(e == outs_pre[outs_pre.len() - 1]);
                        assert(e == outs0[outs_pre.len() - 1]);
                        assert(crate::matter_tree::ent_in_range(e));
                        assert(outs@ =~= outs0.subrange(0, outs@.len() as int));
                        assert forall|k: int|
                            0 <= k < outs@.len() implies crate::matter_tree::ent_in_range(
                            #[trigger] outs@[k],
                        ) by {
                            assert(outs@[k] == outs_pre[k]);
                        }
                    }
                    let u = Self::get_displaced_outsider(e);
                    ups.push(u);
                    proof {
                        if hyp {
                            assert(crate::matter_tree::moderate(e));
                            lemma_switch_home_band(
                                e.bounding_sphere.center.x as int,
                                MAX_SIZE as int,
                            );
                            lemma_switch_home_band(
                                e.bounding_sphere.center.y as int,
                                MAX_SIZE as int,
                            );
                            lemma_switch_home_band(
                                e.bounding_sphere.center.z as int,
                                MAX_SIZE as int,
                            );
                            assert(in_home_band(u.entity));
                            assert forall|k: int| 0 <= k < ups@.len() implies in_home_band(
                                (#[trigger] ups@[k]).entity,
                            ) by {
                                if k < ups_pre.len() {
                                    assert(ups@[k] == ups_pre[k]);
                                } else {
                                    assert(ups@[k] == u);
                                }
                            }
                        }
                    }
                }
                proof {
                    if hyp {
                        assert(st_contained(SpaceTree::Matter(cell)));
                    } else {
                        assert(crate::matter_tree::contained(cell));
                    }
                }
                (SpaceTree::Matter(cell), ups)
            },
            SpaceTree::Parent(parent) => {
                let ghost p0 = parent;
                let ghost total0 = st_children_ents(p0.sub_trees@, 0).len() as int;
                let mut parent = parent;
                proof {
                    lemma_st_children_wf_iff(p0.sub_trees@, p0.scale, 0);
                    lemma_st_matter_ok_children_iff(p0.sub_trees@, 0);
                }
                let mut pending: Vec<(usize, EntityToDisplaceUp)> = Vec::new();
                let mut i: usize = 0;
                while i < 8
                    invariant
                        i <= 8,
                        st_measure(self) == p0.scale + 1,
                        st_ents(self).len() == total0,
                        total0 <= usize::MAX,
                        hyp ==> crate::matter_tree::all_moderate(st_ents(SpaceTree::Parent(p0))),
                        p0.sub_trees@.len() == 8,
                        parent.scale == p0.scale,
                        parent.sub_trees@.len() == 8,
                        forall|j: int|
                            0 <= j < 8 ==> st_child_ok(#[trigger] parent.sub_trees@[j], p0.scale),
                        forall|j: int|
                            0 <= j < i ==> st_matter_ok_opt(#[trigger] parent.sub_trees@[j]),
                        hyp ==> (forall|j: int|
                            0 <= j < i ==> st_contained_opt(#[trigger] parent.sub_trees@[j])),
                        forall|j: int|
                            i <= j < 8 ==> #[trigger] parent.sub_trees@[j] == p0.sub_trees@[j],
                        st_children_ents(parent.sub_trees@, 0).len() + pending@.len() == total0,
                        forall|k: int|
                            0 <= k < pending@.len() ==> {
                                let pr = #[trigger] pending@[k];
                                &&& pr.0 < 8
                                &&& pr.1.path@.len() == p0.scale
                                &&& -1 <= pr.1.direction.x <= 1
                                &&& -1 <= pr.1.direction.y <= 1
                                &&& -1 <= pr.1.direction.z <= 1
                                &&& crate::matter_tree::ent_in_range(pr.1.entity)
                            },
                        hyp ==> (forall|k: int|
                            0 <= k < pending@.len() ==> in_home_band(
                                (#[trigger] pending@[k]).1.entity,
                            )),
                    decreases 8 - i,
                {
                    if parent.sub_trees[i].is_some() {
                        let ghost s_a = parent.sub_trees@;
                        let mut child_opt = parent.sub_trees[i].take();
                        let child_box = child_opt.unwrap();
                        let ghost child0 = *child_box;
                        let ghost s_b = parent.sub_trees@;
                        proof {
                            assert(st_child_ok(s_a[i as int], p0.scale));
                            assert(st_wf(child0));
                            assert(st_measure(child0) < st_measure(self));
                            assert(st_up_len(child0) == p0.scale);
                            assert(s_b =~= s_a.update(i as int, None));
                            lemma_st_children_ents_update(s_a, i as int, None, 0);
                            assert(st_opt_ents(s_a[i as int]) == st_ents(child0));
                            assert(st_ents(child0).len() <= usize::MAX);
                            if hyp {
                                lemma_st_all_moderate_child(p0, i as int);
                                assert(crate::matter_tree::all_moderate(st_ents(child0)));
                            }
                        }
                        let rr = (*child_box).refresh();
                        let new_child = rr.0;
                        let mut sub_ups = rr.1;
                        let ghost child1 = new_child;
                        let ghost sub0 = sub_ups@;
                        parent.sub_trees[i] = Some(Box::new(new_child));
                        proof {
                            let s_c = parent.sub_trees@;
                            assert(s_c =~= s_b.update(i as int, s_c[i as int]));
                            lemma_st_children_ents_update(s_b, i as int, s_c[i as int], 0);
                            assert(st_opt_ents(s_b[i as int]).len() == 0);
                            assert(st_child_ok(s_c[i as int], p0.scale));
                            assert forall|j: int| 0 <= j < 8 implies st_child_ok(
                                #[trigger] s_c[j],
                                p0.scale,
                            ) by {
                                if j != i {
                                    assert(s_c[j] == s_a[j]);
                                }
                            }
                            assert forall|j: int| 0 <= j < i + 1 implies st_matter_ok_opt(
                                #[trigger] s_c[j],
                            ) by {
                                if j != i {
                                    assert(s_c[j] == s_a[j]);
                                }
                            }
                            if hyp {
                                assert(st_contained(child1));
                                assert forall|j: int| 0 <= j < i + 1 implies st_contained_opt(
                                    #[trigger] s_c[j],
                                ) by {
                                    if j != i {
                                        assert(s_c[j] == s_a[j]);
                                    }
                                }
                            }
                        }
                        let ghost pend_base = pending@;
                        while sub_ups.len() > 0
                            invariant
                                i < 8,
                                sub_ups@.len() <= sub0.len(),
                                pending@.len() + sub_ups@.len() == pend_base.len() + sub0.len(),
                                forall|k: int|
                                    0 <= k < pending@.len() && k < pend_base.len()
                                        ==> #[trigger] pending@[k] == pend_base[k],
                                forall|k: int|
                                    pend_base.len() <= k < pending@.len() ==> (
                                    #[trigger] pending@[k]).0 == i,
                                forall|k: int|
                                    pend_base.len() <= k < pending@.len() ==> up_ok(
                                        (#[trigger] pending@[k]).1,
                                        child1,
                                    ),
                                forall|k: int|
                                    0 <= k < sub_ups@.len() ==> up_ok(
                                        #[trigger] sub_ups@[k],
                                        child1,
                                    ),
                                hyp ==> (forall|k: int|
                                    0 <= k < pending@.len() && k < pend_base.len()
                                        ==> in_home_band((#[trigger] pending@[k]).1.entity)),
                                hyp ==> (forall|k: int|
                                    pend_base.len() <= k < pending@.len() ==> in_home_band(
                                        (#[trigger] pending@[k]).1.entity,
                                    )),
                                hyp ==> (forall|k: int|
                                    0 <= k < sub_ups@.len() ==> in_home_band(
                                        (#[trigger] sub_ups@[k]).entity,
                                    )),
                            decreases sub_ups@.len(),
                        {
                            let ghost su_pre = sub_ups@;
                            let ghost pend_pre = pending@;
                            let u = sub_ups.pop().unwrap();
                            pending.push((i, u));
                            proof {
                                assert forall|k: int| 0 <= k < sub_ups@.len() implies up_ok(
                                    #[trigger] sub_ups@[k],
                                    child1,
                                ) by {
                                    assert(sub_ups@[k] == su_pre[k]);
                                }
                                assert forall|k: int|
                                    0 <= k < pending@.len() && k < pend_base.len() implies (
                                #[trigger] pending@[k]) == pend_base[k] by {
                                    assert(pending@[k] == pend_pre[k]);
                                }
                                if hyp {
                                    assert(in_home_band(u.entity));
                                    assert forall|k: int|
                                        0 <= k < sub_ups@.len() implies in_home_band(
                                        (#[trigger] sub_ups@[k]).entity,
                                    ) by {
                                        assert(sub_ups@[k] == su_pre[k]);
                                    }
                                    assert forall|k: int|
                                        0 <= k < pending@.len() implies in_home_band(
                                        (#[trigger] pending@[k]).1.entity,
                                    ) by {
                                        if k < pend_pre.len() {
                                            assert(pending@[k] == pend_pre[k]);
                                        } else {
                                            assert(pending@[k] == (i, u));
                                        }
                                    }
                                }
                            }
                        }
                        proof {
                            assert(st_up_len(child1) == p0.scale);
                            assert forall|k: int| 0 <= k < pending@.len() implies {
                                let pr = #[trigger] pending@[k];
                                &&& pr.0 < 8
                                &&& pr.1.path@.len() == p0.scale
                                &&& -1 <= pr.1.direction.x <= 1
                                &&& -1 <= pr.1.direction.y <= 1
                                &&& -1 <= pr.1.direction.z <= 1
                                &&& crate::matter_tree::ent_in_range(pr.1.entity)
                            } by {
                                if k < pend_base.len() {
                                    assert(pending@[k] == pend_base[k]);
                                } else {
                                    assert(up_ok(pending@[k].1, child1));
                                }
                            }
                        }
                    }
                    i = i + 1;
                }
                // route each lifted entity: into the sibling octant its
                // direction reaches, or one level higher with the mirrored
                // octant recorded
                let mut ups: Vec<EntityToDisplaceUp> = Vec::new();
                let mut buckets: Vec<Vec<EntityToDisplaceDown>> = Vec::new();
                let mut bi: usize = 0;
                while bi < 8
                    invariant
                        bi <= 8,
                        buckets@.len() == bi,
                        forall|j: int| 0 <= j < bi ==> (#[trigger] buckets@[j])@.len() == 0,
                    decreases 8 - bi,
                {
                    buckets.push(Vec::new());
                    bi = bi + 1;
                }
                proof {
                    lemma_downs_all_empty(buckets@, 0);
                }
                while pending.len() > 0
                    invariant
                        parent.scale == p0.scale,
                        parent.sub_trees@.len() == 8,
                        buckets@.len() == 8,
                        hyp ==> (forall|j: int|
                            0 <= j < 8 ==> st_contained_opt(#[trigger] parent.sub_trees@[j])),
                        hyp ==> (forall|k: int|
                            0 <= k < pending@.len() ==> in_home_band(
                                (#[trigger] pending@[k]).1.entity,
                            )),
                        hyp ==> (forall|j: int, k: int|
                            0 <= j < 8 && 0 <= k < buckets@[j]@.len() ==> in_home_band(
                                (#[trigger] buckets@[j]@[k]).entity,
                            )),
                        ups@.len() + downs_total(buckets@, 0) + pending@.len() + st_children_ents(
                            parent.sub_trees@,
                            0,
                        ).len() == total0,
                        forall|k: int|
                            0 <= k < pending@.len() ==> {
                                let pr = #[trigger] pending@[k];
                                &&& pr.0 < 8
                                &&& pr.1.path@.len() == p0.scale
                                &&& -1 <= pr.1.direction.x <= 1
                                &&& -1 <= pr.1.direction.y <= 1
                                &&& -1 <= pr.1.direction.z <= 1
                                &&& crate::matter_tree::ent_in_range(pr.1.entity)
                            },
                        forall|j: int, k: int|
                            0 <= j < 8 && 0 <= k < buckets@[j]@.len()
                                ==> crate::matter_tree::ent_in_range(
                                (#[trigger] buckets@[j]@[k]).entity,
                            ) && buckets@[j]@[k].path@.len() >= p0.scale,
                        forall|k: int|
                            0 <= k < ups@.len() ==> {
                                let u = #[trigger] ups@[k];
                                &&& u.path@.len() == p0.scale + 1
                                &&& -1 <= u.direction.x <= 1
                                &&& -1 <= u.direction.y <= 1
                                &&& -1 <= u.direction.z <= 1
                                &&& crate::matter_tree::ent_in_range(u.entity)
                            },
                        hyp ==> (forall|k: int|
                            0 <= k < ups@.len() ==> in_home_band((#[trigger] ups@[k]).entity)),
                    decreases pending@.len(),
                {
                    let ghost pend_pre = pending@;
                    let ghost ups_pre = ups@;
                    let pr = pending.pop().unwrap();
                    let src = pr.0;
                    let mut u = pr.1;
                    proof {
                        assert forall|k: int| 0 <= k < pending@.len() implies {
                            let pr2 = #[trigger] pending@[k];
                            &&& pr2.0 < 8
                            &&& pr2.1.path@.len() == p0.scale
                            &&& -1 <= pr2.1.direction.x <= 1
                            &&& -1 <= pr2.1.direction.y <= 1
                            &&& -1 <= pr2.1.direction.z <= 1
                            &&& crate::matter_tree::ent_in_range(pr2.1.entity)
                        } by {
                            assert(pending@[k] == pend_pre[k]);
                        }
                        if hyp {
                            assert(in_home_band(pr.1.entity));
                            assert forall|k: int| 0 <= k < pending@.len() implies in_home_band(
                                (#[trigger] pending@[k]).1.entity,
                            ) by {
                                assert(pending@[k] == pend_pre[k]);
                            }
                        }
                    }
                    let q = Quadrant::from_index(src);
                    match q.move_to(u.direction) {
                        Some(dest) => {
                            let di = dest.to_index();
                            let d = EntityToDisplaceDown { path: u.path, entity: u.entity };
                            let ghost bpre = buckets@;
                            buckets[di].push(d);
                            proof {
                                assert(buckets@ =~= bpre.update(di as int, buckets@[di as int]));
                                assert(buckets@[di as int]@ =~= bpre[di as int]@.push(d));
                                lemma_downs_total_update(bpre, di as int, buckets@[di as int], 0);
                                assert forall|j: int, k: int|
                                    0 <= j < 8 && 0 <= k < buckets@[j]@.len()
                                        implies crate::matter_tree::ent_in_range(
                                        (#[trigger] buckets@[j]@[k]).entity,
                                    ) && buckets@[j]@[k].path@.len() >= p0.scale by {
                                    if j != di {
                                        assert(buckets@[j] == bpre[j]);
                                    } else {
                                        if k < bpre[j]@.len() {
                                            assert(buckets@[j]@[k] == bpre[j]@[k]);
                                        } else {
                                            assert(buckets@[j]@[k] == d);
                                        }
                                    }
                                }
                                if hyp {
                                    assert forall|j: int, k: int|
                                        0 <= j < 8 && 0 <= k < buckets@[j]@.len()
                                            implies in_home_band(
                                            (#[trigger] buckets@[j]@[k]).entity,
                                        ) by {
                                        if j != di {
                                            assert(buckets@[j] == bpre[j]);
                                        } else {
                                            if k < bpre[j]@.len() {
                                                assert(buckets@[j]@[k] == bpre[j]@[k]);
                                            } else {
                                                assert(buckets@[j]@[k] == d);
                                            }
                                        }
                                    }
                                }
                            }
                        },
                        None => {
                            let mirror_quadrant = q.mirror(u.direction);
                            u.path.push(mirror_quadrant);
                            let stripped = u.direction.remove_matching_quadrant_component(
                                mirror_quadrant,
                            );
                            u.direction = stripped;
                            ups.push(u);
                        },
                    }
                }
                // send each sideways batch down into its sibling
                while buckets.len() > 0
                    invariant
                        st_measure(self) == p0.scale + 1,
                        total0 <= usize::MAX,
                        parent.scale == p0.scale,
                        parent.sub_trees@.len() == 8,
                        buckets@.len() <= 8,
                        forall|j: int|
                            0 <= j < 8 ==> st_child_ok(#[trigger] parent.sub_trees@[j], p0.scale),
                        forall|j: int|
                            0 <= j < 8 ==> st_matter_ok_opt(#[trigger] parent.sub_trees@[j]),
                        hyp ==> (forall|j: int|
                            0 <= j < 8 ==> st_contained_opt(#[trigger] parent.sub_trees@[j])),
                        hyp ==> (forall|j: int, k: int|
                            0 <= j < 8 && j < buckets@.len() && 0 <= k < buckets@[j]@.len()
                                ==> in_home_band((#[trigger] buckets@[j]@[k]).entity)),
                        forall|j: int, k: int|
                            0 <= j < 8 && j < buckets@.len() && 0 <= k < buckets@[j]@.len()
                                ==> crate::matter_tree::ent_in_range(
                                (#[trigger] buckets@[j]@[k]).entity,
                            ) && buckets@[j]@[k].path@.len() >= p0.scale,
                        ups@.len() + downs_total(buckets@, 0) + st_children_ents(
                            parent.sub_trees@,
                            0,
                        ).len() == total0,
                        forall|k: int|
                            0 <= k < ups@.len() ==> {
                                let u = #[trigger] ups@[k];
                                &&& u.path@.len() == p0.scale + 1
                                &&& -1 <= u.direction.x <= 1
                                &&& -1 <= u.direction.y <= 1
                                &&& -1 <= u.direction.z <= 1
                                &&& crate::matter_tree::ent_in_range(u.entity)
                            },
                    decreases buckets@.len(),
                {
                    let ghost bpre = buckets@;
                    let qi = buckets.len() - 1;
                    let bucket = buckets.pop().unwrap();
                    proof {
                        lemma_downs_total_pop(bpre, 0);
                        assert(buckets@ =~= bpre.drop_last());
                        assert(bucket@ == bpre[qi as int]@);
                    }
                    if bucket.len() > 0 {
                        let ghost s_a = parent.sub_trees@;
                        if parent.sub_trees[qi].is_none() {
                            let c = SpaceTree::build_sub_tree(parent.scale);
                            parent.sub_trees[qi] = Some(Box::new(c));
                            proof {
                                assert(parent.sub_trees@ =~= s_a.update(
                                    qi as int,
                                    parent.sub_trees@[qi as int],
                                ));
                                lemma_st_children_ents_update(
                                    s_a,
                                    qi as int,
                                    parent.sub_trees@[qi as int],
                                    0,
                                );
                                assert(st_opt_ents(parent.sub_trees@[qi as int]).len() == 0);
                                assert(st_opt_ents(s_a[qi as int]).len() == 0);
                                assert forall|j: int| 0 <= j < 8 implies st_child_ok(
                                    #[trigger] parent.sub_trees@[j],
                                    p0.scale,
                                ) && st_matter_ok_opt(parent.sub_trees@[j]) by {
                                    if j != qi {
                                        assert(parent.sub_trees@[j] == s_a[j]);
                                    }
                                }
                                if hyp {
                                    assert forall|j: int| 0 <= j < 8 implies st_contained_opt(
                                        #[trigger] parent.sub_trees@[j],
                                    ) by {
                                        if j != qi {
                                            assert(parent.sub_trees@[j] == s_a[j]);
                                        }
                                    }
                                }
                            }
                        }
                        let ghost s_b = parent.sub_trees@;
                        let mut child_opt = parent.sub_trees[qi].take();
                        let child_box = child_opt.unwrap();
                        let ghost child0 = *child_box;
                        let ghost s_c = parent.sub_trees@;
                        proof {
                            assert(st_child_ok(s_b[qi as int], p0.scale));
                            assert(st_wf(child0));
                            assert(st_matter_ok(child0));
                            assert(st_measure(child0) <= p0.scale);
                            assert(s_c =~= s_b.update(qi as int, None));
                            lemma_st_children_ents_update(s_b, qi as int, None, 0);
                            assert(st_opt_ents(s_b[qi as int]) == st_ents(child0));
                            assert forall|k: int| 0 <= k < bucket@.len() implies down_ok(
                                #[trigger] bucket@[k],
                                child0,
                            ) by {
                                assert(bucket@[k] == bpre[qi as int]@[k]);
                            }
                            assert(st_ents(child0).len() + bucket@.len() <= usize::MAX);
                            if hyp {
                                assert(st_contained_opt(s_b[qi as int]));
                                assert forall|k: int| 0 <= k < bucket@.len() implies in_home_band(
                                    (#[trigger] bucket@[k]).entity,
                                ) by {
                                    assert(bucket@[k] == bpre[qi as int]@[k]);
                                }
                            }
                        }
                        let new_child = (*child_box).relocate_entities(bucket);
                        parent.sub_trees[qi] = Some(Box::new(new_child));
                        proof {
                            let s_d = parent.sub_trees@;
                            assert(s_d =~= s_c.update(qi as int, s_d[qi as int]));
                            lemma_st_children_ents_update(s_c, qi as int, s_d[qi as int], 0);
                            assert(st_opt_ents(s_c[qi as int]).len() == 0);
                            assert forall|j: int| 0 <= j < 8 implies st_child_ok(
                                #[trigger] s_d[j],
                                p0.scale,
                            ) && st_matter_ok_opt(s_d[j]) by {
                                if j != qi {
                                    assert(s_d[j] == s_b[j]);
                                }
                            }
                            if hyp {
                                assert forall|j: int| 0 <= j < 8 implies st_contained_opt(
                                    #[trigger] s_d[j],
                                ) by {
                                    if j != qi {
                                        assert(s_d[j] == s_b[j]);
                                    }
                                }
                            }
                        }
                    }
                }
                let r0 = SpaceTree::Parent(parent);
                proof {
                    let p1 = r0->Parent_0;
                    lemma_st_children_wf_iff(p1.sub_trees@, p1.scale, 0);
                    lemma_st_matter_ok_children_iff(p1.sub_trees@, 0);
                    assert(st_up_len(r0) == p0.scale + 1);
                    if hyp {
                        lemma_st_contained_children_iff(p1.sub_trees@, 0);
                        assert(st_contained(r0));
                    }
                }
                (r0, ups)
            },
        }
    }

    /// Run the per-tick actions over every matter tree of the universe.
    pub fn run_actions(self) -> (r: SpaceTree)
        requires
            st_wf(self),
            crate::matter_tree::spawns_ok(st_ents(self)),
            st_ents(self).len() + st_spawns(self) <= usize::MAX,
        ensures
            st_wf(r),
            st_measure(r) == st_measure(self),
            r is Parent <==> self is Parent,
            st_ents(r).len() == st_ents(self).len() + st_spawns(self),
            crate::matter_tree::movements_ok(st_ents(self)) ==> crate::matter_tree::movements_ok(
                st_ents(r),
            ),
            crate::matter_tree::all_tick_moderate(st_ents(self))
                ==> crate::matter_tree::all_landing_moderate(st_ents(r)),
        decreases st_measure(self),
    {
        match self {
            SpaceTree::Matter(mut m) => {
                m.run_actions();
                SpaceTree::Matter(m)
            },
            SpaceTree::Parent(parent) => {
                let ghost p0 = parent;
                let mut parent = parent;
                proof {
                    lemma_st_children_wf_iff(p0.sub_trees@, p0.scale, 0);
                    if crate::matter_tree::movements_ok(st_ents(self)) {
                        assert forall|j: int| 0 <= j < 8 implies crate::matter_tree::movements_ok(
                            st_opt_ents(#[trigger] parent.sub_trees@[j]),
                        ) by {
                            lemma_st_movements_ok_child(p0, j);
                        }
                    }
                    if crate::matter_tree::all_tick_moderate(st_ents(self)) {
                        assert forall|j: int|
                            0 <= j < 8 implies crate::matter_tree::all_tick_moderate(
                            st_opt_ents(#[trigger] parent.sub_trees@[j]),
                        ) by {
                            lemma_st_tick_moderate_child(p0, j);
                        }
                    }
                }
                let mut i: usize = 0;
                while i < 8
                    invariant
                        i <= 8,
                        st_measure(self) == p0.scale + 1,
                        st_ents(self) == st_children_ents(p0.sub_trees@, 0),
                        st_spawns(self) == st_children_spawns(p0.sub_trees@, 0),
                        crate::matter_tree::spawns_ok(st_ents(self)),
                        st_ents(self).len() + st_spawns(self) <= usize::MAX,
                        self == SpaceTree::Parent(p0),
                        st_wf(self),
                        p0.sub_trees@.len() == 8,
                        parent.scale == p0.scale,
                        parent.sub_trees@.len() == 8,
                        forall|j: int|
                            0 <= j < 8 ==> st_child_ok(#[trigger] parent.sub_trees@[j], p0.scale),
                        forall|j: int|
                            i <= j < 8 ==> #[trigger] parent.sub_trees@[j] == p0.sub_trees@[j],
                        st_children_ents(parent.sub_trees@, 0).len() + st_children_spawns(
                            p0.sub_trees@,
                            i as int,
                        ) == st_children_ents(p0.sub_trees@, 0).len() + st_children_spawns(
                            p0.sub_trees@,
                            0,
                        ),
                        crate::matter_tree::movements_ok(st_ents(self)) ==> (forall|j: int|
                            0 <= j < 8 ==> crate::matter_tree::movements_ok(
                                st_opt_ents(#[trigger] parent.sub_trees@[j]),
                            )),
                        crate::matter_tree::all_tick_moderate(st_ents(self)) ==> (forall|j: int|
                            0 <= j < i ==> crate::matter_tree::all_landing_moderate(
                                st_opt_ents(#[trigger] parent.sub_trees@[j]),
                            )) && (forall|j: int|
                            i <= j < 8 ==> crate::matter_tree::all_tick_moderate(
                                st_opt_ents(#[trigger] parent.sub_trees@[j]),
                            )),
                    decreases 8 - i,
                {
                    proof {
                        assert(st_children_spawns(p0.sub_trees@, i as int) == st_opt_spawns(
                            p0.sub_trees@[i as int],
                        ) + st_children_spawns(p0.sub_trees@, i as int + 1));
                    }
                    if parent.sub_trees[i].is_some() {
                        let ghost s_a = parent.sub_trees@;
                        let mut child_opt = parent.sub_trees[i].take();
                        let child_box = child_opt.unwrap();
                        let ghost child0 = *child_box;
                        let ghost s_b = parent.sub_trees@;
                        proof {
                            assert(st_child_ok(s_a[i as int], p0.scale));
                            assert(s_a[i as int] == p0.sub_trees@[i as int]);
                            lemma_st_spawns_ok_child(p0, i as int);
                            assert(st_opt_ents(p0.sub_trees@[i as int]) == st_ents(child0));
                            assert(st_opt_spawns(p0.sub_trees@[i as int]) == st_spawns(child0));
                            lemma_st_spawns_prefix_bound(p0.sub_trees@, i as int, 0);
                            lemma_st_ents_prefix_bound(p0.sub_trees@, i as int, 0);
                            assert(st_ents(child0).len() + st_spawns(child0) <= usize::MAX);
                            assert(st_measure(child0) < st_measure(self));
                            assert(s_b =~= s_a.update(i as int, None));
                            lemma_st_children_ents_update(s_a, i as int, None, 0);
                        }
                        proof {
                            if crate::matter_tree::movements_ok(st_ents(self)) {
                                lemma_st_movements_ok_child(p0, i as int);
                            }
                            if crate::matter_tree::all_tick_moderate(st_ents(self)) {
                                assert(crate::matter_tree::all_tick_moderate(
                                    st_opt_ents(p0.sub_trees@[i as int]),
                                ));
                            }
                        }
                        let new_child = (*child_box).run_actions();
                        parent.sub_trees[i] = Some(Box::new(new_child));
                        proof {
                            let s_c = parent.sub_trees@;
                            assert(s_c =~= s_b.update(i as int, s_c[i as int]));
                            lemma_st_children_ents_update(s_b, i as int, s_c[i as int], 0);
                            assert(st_opt_ents(s_b[i as int]).len() == 0);
                            assert forall|j: int| 0 <= j < 8 implies st_child_ok(
                                #[trigger] s_c[j],
                                p0.scale,
                            ) by {
                                if j != i {
                                    assert(s_c[j] == s_a[j]);
                                }
                            }
                            if crate::matter_tree::movements_ok(st_ents(self)) {
                                assert forall|j: int|
                                    0 <= j < 8 implies crate::matter_tree::movements_ok(
                                    st_opt_ents(#[trigger] s_c[j]),
                                ) by {
                                    if j != i {
                                        assert(s_c[j] == s_a[j]);
                                    } else {
                                        assert(st_opt_ents(s_c[j]) == st_ents(*s_c[j]->Some_0));
                                    }
                                }
                            }
                            if crate::matter_tree::all_tick_moderate(st_ents(self)) {
                                assert forall|j: int|
                                    0 <= j < i + 1 implies crate::matter_tree::all_landing_moderate(
                                    st_opt_ents(#[trigger] s_c[j]),
                                ) by {
                                    if j != i {
                                        assert(s_c[j] == s_a[j]);
                                    } else {
                                        assert(st_opt_ents(s_c[j]) == st_ents(*s_c[j]->Some_0));
                                    }
                                }
                                assert forall|j: int|
                                    i + 1 <= j < 8 implies crate::matter_tree::all_tick_moderate(
                                    st_opt_ents(#[trigger] s_c[j]),
                                ) by {
                                    assert(s_c[j] == s_a[j]);
                                }
                            }
                        }
                    } else {
                        proof {
                            if crate::matter_tree::movements_ok(st_ents(self)) {
                                lemma_st_movements_ok_child(p0, i as int);
                                assert(st_opt_ents(parent.sub_trees@[i as int]) == st_opt_ents(
                                    p0.sub_trees@[i as int],
                                ));
                            }
                            if crate::matter_tree::all_tick_moderate(st_ents(self)) {
                                assert(parent.sub_trees@[i as int] is None);
                                assert(crate::matter_tree::all_landing_moderate(
                                    st_opt_ents(parent.sub_trees@[i as int]),
                                ));
                            }
                        }
                    }
                    i = i + 1;
                }
                let r = SpaceTree::Parent(parent);
                proof {
                    let p1 = r->Parent_0;
                    lemma_st_children_wf_iff(p1.sub_trees@, p1.scale, 0);
                    if crate::matter_tree::movements_ok(st_ents(self)) {
                        lemma_st_movements_ok_children(p1.sub_trees@, 0);
                    }
                    if crate::matter_tree::all_tick_moderate(st_ents(self)) {
                        lemma_st_landing_children(p1.sub_trees@, 0);
                    }
                }
                r
            },
        }
    }

    /// Integrate every entity of the universe by one tick, position by
    /// position.
    pub fn run_movements(self) -> (r: SpaceTree)
        requires
            st_wf(self),
            crate::matter_tree::movements_ok(st_ents(self)),
        ensures
            st_wf(r),
            st_measure(r) == st_measure(self),
            r is Parent <==> self is Parent,
            crate::matter_tree::pointwise(
                crate::matter_tree::integrated_rel(),
                st_ents(self),
                st_ents(r),
            ),
        decreases st_measure(self),
    {
        match self {
            SpaceTree::Matter(mut m) => {
                m.run_movements();
                SpaceTree::Matter(m)
            },
            SpaceTree::Parent(parent) => {
                let ghost p0 = parent;
                let mut parent = parent;
                proof {
                    lemma_st_children_wf_iff(p0.sub_trees@, p0.scale, 0);
                }
                let mut i: usize = 0;
                while i < 8
                    invariant
                        i <= 8,
                        st_measure(self) == p0.scale + 1,
                        st_ents(self) == st_children_ents(p0.sub_trees@, 0),
                        crate::matter_tree::movements_ok(st_ents(self)),
                        self == SpaceTree::Parent(p0),
                        st_wf(self),
                        p0.sub_trees@.len() == 8,
                        parent.scale == p0.scale,
                        parent.sub_trees@.len() == 8,
                        forall|j: int|
                            0 <= j < 8 ==> st_child_ok(#[trigger] parent.sub_trees@[j], p0.scale),
                        forall|j: int|
                            i <= j < 8 ==> #[trigger] parent.sub_trees@[j] == p0.sub_trees@[j],
                        forall|j: int|
                            0 <= j < i ==> crate::matter_tree::pointwise(
                                crate::matter_tree::integrated_rel(),
                                st_opt_ents(p0.sub_trees@[j]),
                                st_opt_ents(#[trigger] parent.sub_trees@[j]),
                            ),
                    decreases 8 - i,
                {
                    if parent.sub_trees[i].is_some() {
                        let ghost s_a = parent.sub_trees@;
                        let mut child_opt = parent.sub_trees[i].take();
                        let child_box = child_opt.unwrap();
                        let ghost child0 = *child_box;
                        proof {
                            assert(st_child_ok(s_a[i as int], p0.scale));
                            assert(s_a[i as int] == p0.sub_trees@[i as int]);
                            lemma_st_movements_ok_child(p0, i as int);
                            assert(st_opt_ents(p0.sub_trees@[i as int]) == st_ents(child0));
                            assert(st_measure(child0) < st_measure(self));
                        }
                        let new_child = (*child_box).run_movements();
                        parent.sub_trees[i] = Some(Box::new(new_child));
                        proof {
                            let s_c = parent.sub_trees@;
                            assert(s_c =~= s_a.update(i as int, s_c[i as int]));
                            assert forall|j: int| 0 <= j < 8 implies st_child_ok(
                                #[trigger] s_c[j],
                                p0.scale,
                            ) by {
                                if j != i {
                                    assert(s_c[j] == s_a[j]);
                                }
                            }
                            assert forall|j: int| 0 <= j < i + 1 implies crate::matter_tree::pointwise(
                                crate::matter_tree::integrated_rel(),
                                st_opt_ents(p0.sub_trees@[j]),
                                st_opt_ents(#[trigger] s_c[j]),
                            ) by {
                                if j != i {
                                    assert(s_c[j] == s_a[j]);
                                } else {
                                    assert(st_opt_ents(s_c[j]) == st_ents(*s_c[j]->Some_0));
                                }
                            }
                        }
                    } else {
                        proof {
                            assert(parent.sub_trees@[i as int] is None);
                            assert(crate::matter_tree::pointwise(
                                crate::matter_tree::integrated_rel(),
                                st_opt_ents(p0.sub_trees@[i as int]),
                                st_opt_ents(parent.sub_trees@[i as int]),
                            ));
                        }
                    }
                    i = i + 1;
                }
                let r = SpaceTree::Parent(parent);
                proof {
                    let p1 = r->Parent_0;
                    lemma_st_children_wf_iff(p1.sub_trees@, p1.scale, 0);
                    lemma_st_children_pointwise(
                        crate::matter_tree::integrated_rel(),
                        p0.sub_trees@,
                        p1.sub_trees@,
                        0,
                    );
                }
                r
            },
        }
    }

    /// Write this tick's controller inputs into every controlled agent of
    /// the universe.
    pub fn apply_controls(self, forces: Vec3, drop_block: bool, drop_fixed: bool) -> (r: SpaceTree)
        requires
            st_wf(self),
        ensures
            st_wf(r),
            st_measure(r) == st_measure(self),
            r is Parent <==> self is Parent,
            crate::matter_tree::pointwise(
                crate::matter_tree::controls_rel(forces, drop_block, drop_fixed),
                st_ents(self),
                st_ents(r),
            ),
        decreases st_measure(self),
    {
        let ghost rel = crate::matter_tree::controls_rel(forces, drop_block, drop_fixed);
        match self {
            SpaceTree::Matter(mut m) => {
                m.apply_controls(forces, drop_block, drop_fixed);
                SpaceTree::Matter(m)
            },
            SpaceTree::Parent(parent) => {
                let ghost p0 = parent;
                let mut parent = parent;
                proof {
                    lemma_st_children_wf_iff(p0.sub_trees@, p0.scale, 0);
                }
                let mut i: usize = 0;
                while i < 8
                    invariant
                        i <= 8,
                        rel == crate::matter_tree::controls_rel(forces, drop_block, drop_fixed),
                        st_measure(self) == p0.scale + 1,
                        st_ents(self) == st_children_ents(p0.sub_trees@, 0),
                        self == SpaceTree::Parent(p0),
                        st_wf(self),
                        p0.sub_trees@.len() == 8,
                        parent.scale == p0.scale,
                        parent.sub_trees@.len() == 8,
                        forall|j: int|
                            0 <= j < 8 ==> st_child_ok(#[trigger] parent.sub_trees@[j], p0.scale),
                        forall|j: int|
                            i <= j < 8 ==> #[trigger] parent.sub_trees@[j] == p0.sub_trees@[j],
                        forall|j: int|
                            0 <= j < i ==> crate::matter_tree::pointwise(
                                rel,
                                st_opt_ents(p0.sub_trees@[j]),
                                st_opt_ents(#[trigger] parent.sub_trees@[j]),
                            ),
                    decreases 8 - i,
                {
                    if parent.sub_trees[i].is_some() {
                        let ghost s_a = parent.sub_trees@;
                        let mut child_opt = parent.sub_trees[i].take();
                        let child_box = child_opt.unwrap();
                        let ghost child0 = *child_box;
                        proof {
                            assert(st_child_ok(s_a[i as int], p0.scale));
                            assert(s_a[i as int] == p0.sub_trees@[i as int]);
                            assert(st_opt_ents(p0.sub_trees@[i as int]) == st_ents(child0));
                            assert(st_measure(child0) < st_measure(self));
                        }
                        let new_child = (*child_box).apply_controls(forces, drop_block, drop_fixed);
                        parent.sub_trees[i] = Some(Box::new(new_child));
                        proof {
                            let s_c = parent.sub_trees@;
                            assert(s_c =~= s_a.update(i as int, s_c[i as int]));
                            assert forall|j: int| 0 <= j < 8 implies st_child_ok(
                                #[trigger] s_c[j],
                                p0.scale,
                            ) by {
                                if j != i {
                                    assert(s_c[j] == s_a[j]);
                                }
                            }
                            assert forall|j: int| 0 <= j < i + 1 implies crate::matter_tree::pointwise(
                                rel,
                                st_opt_ents(p0.sub_trees@[j]),
                                st_opt_ents(#[trigger] s_c[j]),
                            ) by {
                                if j != i {
                                    assert(s_c[j] == s_a[j]);
                                } else {
                                    assert(st_opt_ents(s_c[j]) == st_ents(*s_c[j]->Some_0));
                                }
                            }
                        }
                    } else {
                        proof {
                            assert(parent.sub_trees@[i as int] is None);
                            assert(crate::matter_tree::pointwise(
                                rel,
                                st_opt_ents(p0.sub_trees@[i as int]),
                                st_opt_ents(parent.sub_trees@[i as int]),
                            ));
                        }
                    }
                    i = i + 1;
                }
                let r = SpaceTree::Parent(parent);
                proof {
                    let p1 = r->Parent_0;
                    lemma_st_children_wf_iff(p1.sub_trees@, p1.scale, 0);
                    lemma_st_children_pointwise(rel, p0.sub_trees@, p1.sub_trees@, 0);
                }
                r
            },
        }
    }

    /// Apply this tick's collisions inside every matter tree of the universe.
    /// The space nodes and every matter cell stay in place; only collision
    /// tallies change, and each matter root's locals grow theirs by exactly
    /// the overlaps its own pass considers.
    pub fn apply_neighbourhood_collisions(self) -> (r: SpaceTree)
        requires
            st_wf(self),
        ensures
            st_wf(r),
            st_measure(r) == st_measure(self),
            r is Parent <==> self is Parent,
            st_collision_shape(self, r),
            crate::matter_tree::pointwise(
                crate::matter_tree::same_core_rel(),
                st_ents(self),
                st_ents(r),
            ),
        decreases st_measure(self),
    {
        match self {
            SpaceTree::Matter(mut m) => {
                m.apply_neighbourhood_collisions();
                SpaceTree::Matter(m)
            },
            SpaceTree::Parent(parent) => {
                let ghost p0 = parent;
                let mut parent = parent;
                proof {
                    lemma_st_children_wf_iff(p0.sub_trees@, p0.scale, 0);
                }
                let mut i: usize = 0;
                while i < 8
                    invariant
                        i <= 8,
                        st_measure(self) == p0.scale + 1,
                        st_ents(self) == st_children_ents(p0.sub_trees@, 0),
                        self == SpaceTree::Parent(p0),
                        st_wf(self),
                        p0.sub_trees@.len() == 8,
                        parent.scale == p0.scale,
                        parent.sub_trees@.len() == 8,
                        forall|j: int|
                            0 <= j < 8 ==> st_child_ok(#[trigger] parent.sub_trees@[j], p0.scale),
                        forall|j: int|
                            i <= j < 8 ==> #[trigger] parent.sub_trees@[j] == p0.sub_trees@[j],
                        forall|j: int|
                            0 <= j < i ==> crate::matter_tree::pointwise(
                                crate::matter_tree::same_core_rel(),
                                st_opt_ents(p0.sub_trees@[j]),
                                st_opt_ents(#[trigger] parent.sub_trees@[j]),
                            ),
                        forall|j: int|
                            0 <= j < i ==> st_collision_shape_opt(
                                p0.sub_trees@[j],
                                #[trigger] parent.sub_trees@[j],
                            ),
                    decreases 8 - i,
                {
                    if parent.sub_trees[i].is_some() {
                        let ghost s_a = parent.sub_trees@;
                        let mut child_opt = parent.sub_trees[i].take();
                        let child_box = child_opt.unwrap();
                        let ghost child0 = *child_box;
                        proof {
                            assert(st_child_ok(s_a[i as int], p0.scale));
                            assert(s_a[i as int] == p0.sub_trees@[i as int]);
                            assert(st_opt_ents(p0.sub_trees@[i as int]) == st_ents(child0));
                            assert(st_measure(child0) < st_measure(self));
                        }
                        let new_child = (*child_box).apply_neighbourhood_collisions();
                        parent.sub_trees[i] = Some(Box::new(new_child));
                        proof {
                            let s_c = parent.sub_trees@;
                            assert(s_c =~= s_a.update(i as int, s_c[i as int]));
                            assert forall|j: int| 0 <= j < 8 implies st_child_ok(
                                #[trigger] s_c[j],
                                p0.scale,
                            ) by {
                                if j != i {
                                    assert(s_c[j] == s_a[j]);
                                }
                            }
                            assert forall|j: int| 0 <= j < i + 1 implies crate::matter_tree::pointwise(
                                crate::matter_tree::same_core_rel(),
                                st_opt_ents(p0.sub_trees@[j]),
                                st_opt_ents(#[trigger] s_c[j]),
                            ) by {
                                if j != i {
                                    assert(s_c[j] == s_a[j]);
                                } else {
                                    assert(st_opt_ents(s_c[j]) == st_ents(*s_c[j]->Some_0));
                                }
                            }
                            assert forall|j: int| 0 <= j < i + 1 implies st_collision_shape_opt(
                                p0.sub_trees@[j],
                                #[trigger] s_c[j],
                            ) by {
                                if j != i {
                                    assert(s_c[j] == s_a[j]);
                                }
                            }
                        }
                    } else {
                        proof {
                            assert(parent.sub_trees@[i as int] is None);
                            assert(crate::matter_tree::pointwise(
                                crate::matter_tree::same_core_rel(),
                                st_opt_ents(p0.sub_trees@[i as int]),
                                st_opt_ents(parent.sub_trees@[i as int]),
                            ));
                            assert(st_collision_shape_opt(
                                p0.sub_trees@[i as int],
                                parent.sub_trees@[i as int],
                            ));
                        }
                    }
                    i = i + 1;
                }
                let r = SpaceTree::Parent(parent);
                proof {
                    let p1 = r->Parent_0;
                    lemma_st_children_wf_iff(p1.sub_trees@, p1.scale, 0);
                    lemma_st_children_pointwise(
                        crate::matter_tree::same_core_rel(),
                        p0.sub_trees@,
                        p1.sub_trees@,
                        0,
                    );
                    lemma_st_collision_shape_children_iff(p0.sub_trees@, p1.sub_trees@, 0);
                }
                r
            },
        }
    }

    /// Prune, bottom-up, every child subtree that ended the pass empty.
    pub fn clean_empty_children(self) -> (r: SpaceTree)
        requires
            st_wf(self),
            st_matter_ok(self),
        ensures
            st_wf(r),
            st_measure(r) == st_measure(self),
            r is Parent <==> self is Parent,
            st_ents(r).len() == st_ents(self).len(),
            st_no_empty(r),
            st_matter_ok(r),
            st_contained(self) ==> st_contained(r),
        decreases st_measure(self),
    {
        let ghost hyp = st_contained(self);
        match self {
            SpaceTree::Matter(m) => {
                proof {
                    if hyp {
                        assert(st_contained(SpaceTree::Matter(m)));
                    }
                }
                SpaceTree::Matter(m)
            },
            SpaceTree::Parent(parent) => {
                let ghost p0 = parent;
                let mut parent = parent;
                proof {
                    lemma_st_children_wf_iff(p0.sub_trees@, p0.scale, 0);
                    lemma_st_matter_ok_children_iff(p0.sub_trees@, 0);
                    if hyp {
                        lemma_st_contained_children_iff(p0.sub_trees@, 0);
                    }
                }
                let mut i: usize = 0;
                while i < 8
                    invariant
                        i <= 8,
                        st_measure(self) == p0.scale + 1,
                        parent.scale == p0.scale,
                        parent.sub_trees@.len() == 8,
                        forall|j: int|
                            0 <= j < 8 ==> st_child_ok(#[trigger] parent.sub_trees@[j], p0.scale),
                        forall|j: int|
                            0 <= j < 8 ==> st_matter_ok_opt(#[trigger] parent.sub_trees@[j]),
                        forall|j: int|
                            0 <= j < i ==> st_no_empty_opt(#[trigger] parent.sub_trees@[j]),
                        hyp == st_contained(self),
                        hyp ==> (forall|j: int|
                            0 <= j < 8 ==> st_contained_opt(#[trigger] parent.sub_trees@[j])),
                        st_children_ents(parent.sub_trees@, 0).len() == st_children_ents(
                            p0.sub_trees@,
                            0,
                        ).len(),
                    decreases 8 - i,
                {
                    if parent.sub_trees[i].is_some() {
                        let ghost s_a = parent.sub_trees@;
                        let mut child_opt = parent.sub_trees[i].take();
                        let child_box = child_opt.unwrap();
                        let ghost child0 = *child_box;
                        let ghost s_b = parent.sub_trees@;
                        proof {
                            assert(st_child_ok(s_a[i as int], p0.scale));
                            assert(st_measure(child0) < st_measure(self));
                            assert(s_b =~= s_a.update(i as int, None));
                            lemma_st_children_ents_update(s_a, i as int, None, 0);
                            assert(st_opt_ents(s_a[i as int]) == st_ents(child0));
                        }
                        let cleaned = (*child_box).clean_empty_children();
                        if cleaned.is_empty() {
                            proof {
                                lemma_st_empty_no_ents(cleaned);
                                assert forall|j: int| 0 <= j < i + 1 implies st_no_empty_opt(
                                    #[trigger] parent.sub_trees@[j],
                                ) by {
                                    if j != i {
                                        assert(parent.sub_trees@[j] == s_a[j]);
                                    }
                                }
                                assert forall|j: int| 0 <= j < 8 implies st_child_ok(
                                    #[trigger] parent.sub_trees@[j],
                                    p0.scale,
                                ) && st_matter_ok_opt(parent.sub_trees@[j]) by {
                                    if j != i {
                                        assert(parent.sub_trees@[j] == s_a[j]);
                                    }
                                }
                                if hyp {
                                    assert forall|j: int| 0 <= j < 8 implies st_contained_opt(
                                        #[trigger] parent.sub_trees@[j],
                                    ) by {
                                        if j != i {
                                            assert(parent.sub_trees@[j] == s_a[j]);
                                        }
                                    }
                                }
                            }
                        } else {
                            parent.sub_trees[i] = Some(Box::new(cleaned));
                            proof {
                                let s_c = parent.sub_trees@;
                                assert(s_c =~= s_b.update(i as int, s_c[i as int]));
                                lemma_st_children_ents_update(s_b, i as int, s_c[i as int], 0);
                                assert(st_opt_ents(s_b[i as int]).len() == 0);
                                assert forall|j: int| 0 <= j < i + 1 implies st_no_empty_opt(
                                    #[trigger] s_c[j],
                                ) by {
                                    if j != i {
                                        assert(s_c[j] == s_a[j]);
                                    }
                                }
                                assert forall|j: int| 0 <= j < 8 implies st_child_ok(
                                    #[trigger] s_c[j],
                                    p0.scale,
                                ) && st_matter_ok_opt(s_c[j]) by {
                                    if j != i {
                                        assert(s_c[j] == s_a[j]);
                                    }
                                }
                                if hyp {
                                    assert(st_contained_opt(s_a[i as int]));
                                    assert(st_contained(cleaned));
                                    assert forall|j: int| 0 <= j < 8 implies st_contained_opt(
                                        #[trigger] s_c[j],
                                    ) by {
                                        if j != i {
                                            assert(s_c[j] == s_a[j]);
                                        }
                                    }
                                }
                            }
                        }
                    }
                    i = i + 1;
                }
                let r = SpaceTree::Parent(parent);
                proof {
                    let p1 = r->Parent_0;
                    lemma_st_children_wf_iff(p1.sub_trees@, p1.scale, 0);
                    lemma_st_matter_ok_children_iff(p1.sub_trees@, 0);
                    lemma_st_no_empty_children_iff(p1.sub_trees@, 0);
                    if hyp {
                        lemma_st_contained_children_iff(p1.sub_trees@, 0);
                        assert(st_contained(r));
                    }
                }
                r
            },
        }
    }
}


/// What the post-refresh root may look like: a matter leaf, or a parent that
/// cannot be collapsed onto a single child.
pub open spec fn root_tight(t: SpaceTree) -> bool {
    match t {
        SpaceTree::Matter(_) => true,
        SpaceTree::Parent(p) => count_some(p.sub_trees@, 0) != 1,
    }
}

/// The universe: a space tree whose root is wrapped one scale higher
/// whenever an entity strays past it, and collapsed again when the
/// population retreats.
#[derive(Debug)]
pub struct GrowableSpaceTree {
    pub tree: Box<SpaceTree>,
}

impl GrowableSpaceTree {
    pub fn new() -> (r: GrowableSpaceTree)
        ensures
            st_wf(*r.tree),
            st_ents(*r.tree).len() == 0,
            st_no_empty(*r.tree),
            st_matter_ok(*r.tree),
            (*r.tree) is Matter,
    {
        let t = SpaceTree::new();
        proof {
            let m = t->Matter_0;
            crate::matter_tree::lemma_no_empty_children_iff(m.sub_trees@, 0);
        }
        GrowableSpaceTree { tree: Box::new(t) }
    }

    /// Choose the octant for one root-growth step from the tallied expansion
    /// axes: on each axis the positive direction wins if it is wanted, the
    /// negative is taken otherwise, and the chosen entries are cleared. The
    /// former root belongs in the returned quadrant, the opposite of the
    /// direction grown toward.
    pub fn pick_expansion_quadrant(expansion_dirs: &mut Vec<usize>) -> (r: (Quadrant, usize))
        requires
            old(expansion_dirs)@.len() == 6,
        ensures
            final(expansion_dirs)@.len() == 6,
            r.0 == crate::geometry::quadrant_from_signs(
                old(expansion_dirs)@[0] > 0,
                old(expansion_dirs)@[1] > 0,
                old(expansion_dirs)@[2] > 0,
            ).spec_invert(),
            r.1 == (if old(expansion_dirs)@[0] > 0 || old(expansion_dirs)@[3] > 0 {
                1int
            } else {
                0int
            }) + (if old(expansion_dirs)@[1] > 0 || old(expansion_dirs)@[4] > 0 {
                1int
            } else {
                0int
            }) + (if old(expansion_dirs)@[2] > 0 || old(expansion_dirs)@[5] > 0 {
                1int
            } else {
                0int
            }),
            final(expansion_dirs)@[0] == 0usize,
            final(expansion_dirs)@[1] == 0usize,
            final(expansion_dirs)@[2] == 0usize,
            final(expansion_dirs)@[3] == (if old(expansion_dirs)@[0] == 0 {
                0usize
            } else {
                old(expansion_dirs)@[3]
            }),
            final(expansion_dirs)@[4] == (if old(expansion_dirs)@[1] == 0 {
                0usize
            } else {
                old(expansion_dirs)@[4]
            }),
            final(expansion_dirs)@[5] == (if old(expansion_dirs)@[2] == 0 {
                0usize
            } else {
                old(expansion_dirs)@[5]
            }),
    {
        let mut i_direction: usize = 0;
        let mut dirs_consumed: usize = 0;
        if expansion_dirs[0] != 0 {
            expansion_dirs[0] = 0;
            i_direction = i_direction + 4;
            dirs_consumed = dirs_consumed + 1;
        } else if expansion_dirs[3] != 0 {
            expansion_dirs[3] = 0;
            dirs_consumed = dirs_consumed + 1;
        }
        if expansion_dirs[1] != 0 {
            expansion_dirs[1] = 0;
            i_direction = i_direction + 2;
            dirs_consumed = dirs_consumed + 1;
        } else if expansion_dirs[4] != 0 {
            expansion_dirs[4] = 0;
            dirs_consumed = dirs_consumed + 1;
        }
        if expansion_dirs[2] != 0 {
            expansion_dirs[2] = 0;
            i_direction = i_direction + 1;
            dirs_consumed = dirs_consumed + 1;
        } else if expansion_dirs[5] != 0 {
            expansion_dirs[5] = 0;
            dirs_consumed = dirs_consumed + 1;
        }
        let opposite_quadrant = Quadrant::from_index(i_direction);
        proof {
            crate::geometry::lemma_quadrant_idx_from_idx(i_direction as int);
            assert(Quadrant::spec_from_idx(i_direction as int) == crate::geometry::quadrant_from_signs(
                old(expansion_dirs)@[0] > 0,
                old(expansion_dirs)@[1] > 0,
                old(expansion_dirs)@[2] > 0,
            ));
        }
        (opposite_quadrant.invert(), dirs_consumed)
    }

    /// One relocation pass over the whole universe: refresh the tree, then
    /// grow the root toward the leading evicted entity's direction until
    /// every evicted entity has been reabsorbed, prune what emptied, and
    /// collapse the root while it has a single child.
    #[verifier::rlimit(100)]
    #[verifier::spinoff_prover]
    pub fn refresh(&mut self)
        requires
            st_wf(*old(self).tree),
            st_ents(*old(self).tree).len() <= usize::MAX,
            st_measure(*old(self).tree) + st_ents(*old(self).tree).len() < u32::MAX,
        ensures
            st_wf(*final(self).tree),
            st_ents(*final(self).tree).len() == st_ents(*old(self).tree).len(),
            st_no_empty(*final(self).tree),
            root_tight(*final(self).tree),
            crate::matter_tree::all_moderate(st_ents(*old(self).tree)) ==> st_contained(
                *final(self).tree,
            ),
    {
        let ghost hyp = crate::matter_tree::all_moderate(st_ents(*old(self).tree));
        let ghost total0 = st_ents(*old(self).tree).len() as int;
        let mut tmp: Box<SpaceTree> = Box::new(SpaceTree::new());
        core::mem::swap(&mut self.tree, &mut tmp);
        let rr = (*tmp).refresh();
        let mut tree = rr.0;
        let mut outsiders = rr.1;
        while outsiders.len() > 0
            invariant
                st_wf(tree),
                st_matter_ok(tree),
                st_ents(tree).len() + outsiders@.len() == total0,
                total0 <= usize::MAX,
                st_measure(tree) + outsiders@.len() < u32::MAX,
                hyp ==> st_contained(tree),
                hyp ==> (forall|k: int|
                    0 <= k < outsiders@.len() ==> in_home_band(
                        (#[trigger] outsiders@[k]).entity,
                    )),
                forall|k: int|
                    0 <= k < outsiders@.len() ==> {
                        let u = #[trigger] outsiders@[k];
                        &&& u.path@.len() == st_up_len(tree)
                        &&& -1 <= u.direction.x <= 1
                        &&& -1 <= u.direction.y <= 1
                        &&& -1 <= u.direction.z <= 1
                        &&& crate::matter_tree::ent_in_range(u.entity)
                    },
            decreases outsiders@.len(),
        {
            let dir = outsiders[0].direction;
            let mut expansion_dirs: Vec<usize> = Vec::new();
            let mut zi: usize = 0;
            while zi < 6
                invariant
                    zi <= 6,
                    expansion_dirs@.len() == zi,
                    forall|j: int| 0 <= j < zi ==> expansion_dirs@[j] == 0,
                decreases 6 - zi,
            {
                expansion_dirs.push(0);
                zi = zi + 1;
            }
            if dir.x > 0 {
                expansion_dirs[0] = 1;
            } else if dir.x < 0 {
                expansion_dirs[3] = 1;
            }
            if dir.y > 0 {
                expansion_dirs[1] = 1;
            } else if dir.y < 0 {
                expansion_dirs[4] = 1;
            }
            if dir.z > 0 {
                expansion_dirs[2] = 1;
            } else if dir.z < 0 {
                expansion_dirs[5] = 1;
            }
            let picked = Self::pick_expansion_quadrant(&mut expansion_dirs);
            let child_quadrant = picked.0;
            proof {
                assert(child_quadrant == crate::geometry::quadrant_from_signs(
                    dir.x > 0,
                    dir.y > 0,
                    dir.z > 0,
                ).spec_invert());
            }
            // wrap the former root one scale higher, in the octant opposite
            // the growth direction
            let shell = tree.new_parent();
            let mut p = match shell {
                SpaceTree::Parent(pp) => pp,
                SpaceTree::Matter(_) => {
                    proof {
                        assert(false);
                    }
                    SpaceTreeParent { scale: 0, sub_trees: Vec::new() }
                },
            };
            let ci = child_quadrant.to_index();
            let ghost old_tree = tree;
            let ghost row0 = p.sub_trees@;
            p.sub_trees[ci] = Some(Box::new(tree));
            let ghost row1 = p.sub_trees@;
            tree = SpaceTree::Parent(p);
            proof {
                assert(row1 =~= row0.update(ci as int, row1[ci as int]));
                assert(*row1[ci as int]->Some_0 == old_tree);
                assert forall|j: int| 0 <= j < 8 implies st_child_ok(
                    #[trigger] row1[j],
                    st_measure(old_tree) as u32,
                ) by {
                    if j != ci {
                        assert(row1[j] == row0[j]);
                    }
                }
                lemma_st_children_wf_iff(row1, st_measure(old_tree) as u32, 0);
                assert(st_wf(tree));
                assert forall|j: int| 0 <= j < 8 && j != ci implies #[trigger] row1[j] is None by {
                    assert(row1[j] == row0[j]);
                }
                lemma_st_children_single(row1, ci as int, 0);
                assert(st_ents(tree).len() == st_ents(old_tree).len());
                assert forall|j: int| 0 <= j < 8 implies st_matter_ok_opt(#[trigger] row1[j]) by {
                    if j != ci {
                        assert(row1[j] == row0[j]);
                    }
                }
                lemma_st_matter_ok_children_iff(row1, 0);
                assert(st_up_len(tree) == st_up_len(old_tree) + 1);
                assert(st_measure(tree) == st_measure(old_tree) + 1);
                if hyp {
                    assert forall|j: int| 0 <= j < 8 implies st_contained_opt(
                        #[trigger] row1[j],
                    ) by {
                        if j != ci {
                            assert(row1[j] == row0[j]);
                        }
                    }
                    lemma_st_contained_children_iff(row1, 0);
                    assert(st_contained(tree));
                }
            }
            // record the mirrored step on every path; absorb what the grown
            // root now covers
            let mut kept: Vec<EntityToDisplaceUp> = Vec::new();
            let mut insiders: Vec<EntityToDisplaceDown> = Vec::new();
            let ghost outs_pre = outsiders@;
            while outsiders.len() > 0
                invariant
                    st_measure(tree) >= 1,
                    kept@.len() + insiders@.len() + outsiders@.len() == outs_pre.len(),
                    outsiders@ == outs_pre.subrange(0, outsiders@.len() as int),
                    outs_pre.len() > 0,
                    outs_pre[0].direction == dir,
                    child_quadrant == crate::geometry::quadrant_from_signs(
                        dir.x > 0,
                        dir.y > 0,
                        dir.z > 0,
                    ).spec_invert(),
                    forall|k: int|
                        0 <= k < outs_pre.len() ==> {
                            let u = #[trigger] outs_pre[k];
                            &&& u.path@.len() + 1 == st_up_len(tree)
                            &&& -1 <= u.direction.x <= 1
                            &&& -1 <= u.direction.y <= 1
                            &&& -1 <= u.direction.z <= 1
                            &&& crate::matter_tree::ent_in_range(u.entity)
                        },
                    forall|k: int|
                        0 <= k < kept@.len() ==> {
                            let u = #[trigger] kept@[k];
                            &&& u.path@.len() == st_up_len(tree)
                            &&& -1 <= u.direction.x <= 1
                            &&& -1 <= u.direction.y <= 1
                            &&& -1 <= u.direction.z <= 1
                            &&& crate::matter_tree::ent_in_range(u.entity)
                        },
                    forall|k: int|
                        0 <= k < insiders@.len() ==> {
                            let d = #[trigger] insiders@[k];
                            &&& d.path@.len() == st_measure(tree)
                            &&& crate::matter_tree::ent_in_range(d.entity)
                        },
                    st_up_len(tree) == st_measure(tree),
                    outsiders@.len() == 0 ==> insiders@.len() >= 1,
                    hyp ==> (forall|k: int|
                        0 <= k < outs_pre.len() ==> in_home_band(
                            (#[trigger] outs_pre[k]).entity,
                        )),
                    hyp ==> (forall|k: int|
                        0 <= k < kept@.len() ==> in_home_band((#[trigger] kept@[k]).entity)),
                    hyp ==> (forall|k: int|
                        0 <= k < insiders@.len() ==> in_home_band(
                            (#[trigger] insiders@[k]).entity,
                        )),
                decreases outsiders@.len(),
            {
                let ghost remaining_pre = outsiders@;
                let mut u = outsiders.pop().unwrap();
                proof {
                    assert(u == outs_pre[remaining_pre.len() - 1]);
                    assert(outsiders@ =~= outs_pre.subrange(0, outsiders@.len() as int));
                }
                let mirror_quadrant = child_quadrant.mirror(u.direction);
                u.path.push(mirror_quadrant);
                let opposite = child_quadrant.invert();
                let is_last = outsiders.len() == 0;
                if opposite.match_direction(u.direction) {
                    insiders.push(EntityToDisplaceDown { path: u.path, entity: u.entity });
                } else {
                    proof {
                        if is_last {
                            assert(u.direction == dir);
                            crate::geometry::lemma_invert_involution(
                                crate::geometry::quadrant_from_signs(
                                    dir.x > 0,
                                    dir.y > 0,
                                    dir.z > 0,
                                ),
                            );
                            lemma_match_own_direction(dir);
                            assert(false);
                        }
                    }
                    kept.push(u);
                }
            }
            proof {
                assert forall|k: int| 0 <= k < insiders@.len() implies down_ok(
                    #[trigger] insiders@[k],
                    tree,
                ) by {}
                assert(st_ents(tree).len() + insiders@.len() <= usize::MAX);
            }
            tree = tree.relocate_entities(insiders);
            outsiders = kept;
        }
        tree = tree.clean_empty_children();
        // collapse the root while it stands on a single child
        let mut done = false;
        while !done
            invariant
                st_wf(tree),
                st_no_empty(tree),
                st_matter_ok(tree),
                st_ents(tree).len() == total0,
                hyp ==> st_contained(tree),
                done ==> root_tight(tree),
            decreases st_measure(tree) + (if done {
                0int
            } else {
                1int
            }),
        {
            tree = match tree {
                SpaceTree::Matter(m) => {
                    done = true;
                    SpaceTree::Matter(m)
                },
                SpaceTree::Parent(parent) => {
                    let ghost p0 = parent;
                    let mut parent = parent;
                    proof {
                        lemma_st_children_wf_iff(p0.sub_trees@, p0.scale, 0);
                        lemma_st_no_empty_children_iff(p0.sub_trees@, 0);
                        lemma_st_matter_ok_children_iff(p0.sub_trees@, 0);
                    }
                    let mut cnt: usize = 0;
                    let mut last: usize = 0;
                    let mut j: usize = 0;
                    while j < 8
                        invariant
                            j <= 8,
                            parent == p0,
                            parent.sub_trees@.len() == 8,
                            cnt <= j,
                            cnt + count_some(parent.sub_trees@, j as int) == count_some(
                                parent.sub_trees@,
                                0,
                            ),
                            cnt >= 1 ==> last < j && parent.sub_trees@[last as int] is Some,
                            cnt == 1 ==> (forall|m: int|
                                0 <= m < j && m != last ==> parent.sub_trees@[m] is None),
                            cnt == 0 ==> (forall|m: int|
                                0 <= m < j ==> parent.sub_trees@[m] is None),
                        decreases 8 - j,
                    {
                        if parent.sub_trees[j].is_some() {
                            cnt = cnt + 1;
                            last = j;
                        }
                        j = j + 1;
                    }
                    if cnt == 1 {
                        let mut child_opt = parent.sub_trees[last].take();
                        let child_box = child_opt.unwrap();
                        proof {
                            assert(st_child_ok(p0.sub_trees@[last as int], p0.scale));
                            assert(st_no_empty_opt(p0.sub_trees@[last as int]));
                            assert(st_matter_ok_opt(p0.sub_trees@[last as int]));
                            lemma_count_single(p0.sub_trees@, last as int, 0);
                            lemma_st_children_single(p0.sub_trees@, last as int, 0);
                            assert(st_measure(*child_box) < st_measure(SpaceTree::Parent(p0)));
                            if hyp {
                                lemma_st_contained_children_iff(p0.sub_trees@, 0);
                                assert(st_contained_opt(p0.sub_trees@[last as int]));
                            }
                        }
                        *child_box
                    } else {
                        done = true;
                        SpaceTree::Parent(parent)
                    }
                },
            };
        }
        self.tree = Box::new(tree);
    }

    /// Run this tick's actions over the universe.
    pub fn run_actions(&mut self)
        requires
            st_wf(*old(self).tree),
            crate::matter_tree::spawns_ok(st_ents(*old(self).tree)),
            st_ents(*old(self).tree).len() + st_spawns(*old(self).tree) <= usize::MAX,
        ensures
            st_wf(*final(self).tree),
            st_measure(*final(self).tree) == st_measure(*old(self).tree),
            st_ents(*final(self).tree).len() == st_ents(*old(self).tree).len() + st_spawns(
                *old(self).tree,
            ),
            crate::matter_tree::movements_ok(st_ents(*old(self).tree))
                ==> crate::matter_tree::movements_ok(st_ents(*final(self).tree)),
            crate::matter_tree::all_tick_moderate(st_ents(*old(self).tree))
                ==> crate::matter_tree::all_landing_moderate(st_ents(*final(self).tree)),
    {
        let mut tmp: Box<SpaceTree> = Box::new(SpaceTree::new());
        core::mem::swap(&mut self.tree, &mut tmp);
        let t = (*tmp).run_actions();
        self.tree = Box::new(t);
    }

    /// Integrate every entity of the universe by one tick.
    pub fn run_movements(&mut self)
        requires
            st_wf(*old(self).tree),
            crate::matter_tree::movements_ok(st_ents(*old(self).tree)),
        ensures
            st_wf(*final(self).tree),
            st_measure(*final(self).tree) == st_measure(*old(self).tree),
            crate::matter_tree::pointwise(
                crate::matter_tree::integrated_rel(),
                st_ents(*old(self).tree),
                st_ents(*final(self).tree),
            ),
    {
        let mut tmp: Box<SpaceTree> = Box::new(SpaceTree::new());
        core::mem::swap(&mut self.tree, &mut tmp);
        let t = (*tmp).run_movements();
        self.tree = Box::new(t);
    }

    /// Write this tick's controller inputs into every controlled agent.
    pub fn apply_controls(&mut self, forces: Vec3, drop_block: bool, drop_fixed: bool)
        requires
            st_wf(*old(self).tree),
        ensures
            st_wf(*final(self).tree),
            st_measure(*final(self).tree) == st_measure(*old(self).tree),
            crate::matter_tree::pointwise(
                crate::matter_tree::controls_rel(forces, drop_block, drop_fixed),
                st_ents(*old(self).tree),
                st_ents(*final(self).tree),
            ),
    {
        let mut tmp: Box<SpaceTree> = Box::new(SpaceTree::new());
        core::mem::swap(&mut self.tree, &mut tmp);
        let t = (*tmp).apply_controls(forces, drop_block, drop_fixed);
        self.tree = Box::new(t);
    }

    /// Apply this tick's collisions inside every matter tree.
    pub fn apply_neighbourhood_collisions(&mut self)
        requires
            st_wf(*old(self).tree),
        ensures
            st_wf(*final(self).tree),
            st_collision_shape(*old(self).tree, *final(self).tree),
            crate::matter_tree::pointwise(
                crate::matter_tree::same_core_rel(),
                st_ents(*old(self).tree),
                st_ents(*final(self).tree),
            ),
    {
        let mut tmp: Box<SpaceTree> = Box::new(SpaceTree::new());
        core::mem::swap(&mut self.tree, &mut tmp);
        let t = (*tmp).apply_neighbourhood_collisions();
        self.tree = Box::new(t);
    }

    /// Store a freshly created entity in the universe. It is accepted when
    /// the universe is currently a single matter leaf and the entity's center
    /// lies inside the matter extent; the leaf then holds one more entity.
    /// Anything else leaves the universe untouched and reports failure.
    pub fn insert_entity(&mut self, entity: Entity) -> (r: bool)
        requires
            st_wf(*old(self).tree),
            crate::matter_tree::ent_in_range(entity),
            st_ents(*old(self).tree).len() + 1 <= usize::MAX,
        ensures
            st_wf(*final(self).tree),
            r <==> ((*old(self).tree) matches SpaceTree::Matter(m) && !(crate::matter_tree::classify(
                entity.bounding_sphere,
                m.area,
            ) is CenterOutside)),
            r ==> st_ents(*final(self).tree).len() == st_ents(*old(self).tree).len() + 1,
            r ==> st_ents(*final(self).tree).to_multiset() =~= st_ents(
                *old(self).tree,
            ).to_multiset().insert(entity),
            !r ==> *final(self).tree == *old(self).tree,
    {
        let mut tmp: Box<SpaceTree> = Box::new(SpaceTree::new());
        core::mem::swap(&mut self.tree, &mut tmp);
        match *tmp {
            SpaceTree::Matter(mut m) => {
                proof {
                    crate::geometry::lemma_div_trunc_bounds(m.area.size as int, 2);
                }
                let part = entity.get_containing_cell_part(&m.area);
                let accepted = match part {
                    crate::matter_tree::CellPart::CenterOutside => false,
                    _ => true,
                };
                if accepted {
                    let ghost m0 = m;
                    let mut batch: Vec<Entity> = Vec::new();
                    batch.push(entity);
                    m.add_entities(batch);
                    proof {
                        crate::matter_tree::lemma_ms_len_split(
                            tree_ents(m).to_multiset(),
                            tree_ents(m0).to_multiset(),
                            seq![entity].to_multiset(),
                        );
                        assert(seq![entity].to_multiset() =~= Multiset::empty().insert(entity));
                        assert(tree_ents(m).to_multiset() =~= tree_ents(
                            m0,
                        ).to_multiset().insert(entity));
                    }
                    self.tree = Box::new(SpaceTree::Matter(m));
                    true
                } else {
                    self.tree = Box::new(SpaceTree::Matter(m));
                    false
                }
            },
            SpaceTree::Parent(p) => {
                self.tree = Box::new(SpaceTree::Parent(p));
                false
            },
        }
    }

    pub fn nb_nodes(&self) -> (r: usize)
        requires
            st_wf(*self.tree),
            st_nodes(*self.tree) <= usize::MAX,
        ensures
            r == st_nodes(*self.tree),
    {
        self.tree.nb_nodes()
    }

    pub fn nb_matter_nodes(&self) -> (r: usize)
        requires
            st_wf(*self.tree),
            st_matter_nodes(*self.tree) <= usize::MAX,
        ensures
            r == st_matter_nodes(*self.tree),
    {
        self.tree.nb_matter_nodes()
    }

    pub fn nb_entities(&self) -> (r: usize)
        requires
            st_wf(*self.tree),
            st_ents(*self.tree).len() <= usize::MAX,
        ensures
            r == st_ents(*self.tree).len(),
    {
        self.tree.nb_entities()
    }
}

/// In a row with exactly one occupied slot, a count from anywhere at or
/// before it sees exactly one.
pub proof fn lemma_count_single(s: Seq<Option<Box<SpaceTree>>>, i: int, j: int)
    requires
        s.len() == 8,
        0 <= i < 8,
        s[i] is Some,
        forall|k: int| 0 <= k < 8 && k != i ==> s[k] is None,
        0 <= j <= 8,
    ensures
        count_some(s, j) == (if j <= i {
            1nat
        } else {
            0nat
        }),
    decreases 8 - j,
{
    if j < 8 {
        lemma_count_single(s, i, j + 1);
        if j != i {
            assert(s[j] is None);
        }
    }
}

/// How many spawns the whole universe asks for.
pub open spec fn st_spawns(t: SpaceTree) -> nat
    decreases t, 1int,
{
    match t {
        SpaceTree::Matter(m) => crate::matter_tree::tree_spawns(m),
        SpaceTree::Parent(p) => st_children_spawns(p.sub_trees@, 0),
    }
}

pub open spec fn st_opt_spawns(o: Option<Box<SpaceTree>>) -> nat
    decreases o, 0int,
{
    match o {
        None => 0,
        Some(c) => st_spawns(*c),
    }
}

pub open spec fn st_children_spawns(s: Seq<Option<Box<SpaceTree>>>, i: int) -> nat
    decreases s, 9 - i,
{
    if i < 0 || i >= 8 || i >= s.len() {
        0
    } else {
        st_opt_spawns(s[i]) + st_children_spawns(s, i + 1)
    }
}

pub proof fn lemma_st_spawns_prefix_bound(s: Seq<Option<Box<SpaceTree>>>, i: int, j: int)
    requires
        s.len() == 8,
        0 <= j <= i < 8,
    ensures
        st_opt_spawns(s[i]) <= st_children_spawns(s, j),
    decreases i - j,
{
    if j < i {
        lemma_st_spawns_prefix_bound(s, i, j + 1);
    }
}

pub proof fn lemma_st_ents_prefix_bound(s: Seq<Option<Box<SpaceTree>>>, i: int, j: int)
    requires
        s.len() == 8,
        0 <= j <= i < 8,
    ensures
        st_opt_ents(s[i]).len() <= st_children_ents(s, j).len(),
    decreases i - j,
{
    if j < i {
        lemma_st_ents_prefix_bound(s, i, j + 1);
    }
}

/// An entity of a child's subtree is an entity of the whole space subtree.
pub proof fn lemma_st_children_ents_member(
    s: Seq<Option<Box<SpaceTree>>>,
    j: int,
    i: int,
    x: Entity,
)
    requires
        s.len() == 8,
        0 <= j <= i < 8,
        st_opt_ents(s[i]).contains(x),
    ensures
        st_children_ents(s, j).contains(x),
    decreases i - j,
{
    if j == i {
        let k = choose|k: int| 0 <= k < st_opt_ents(s[i]).len() && st_opt_ents(s[i])[k] == x;
        assert(st_children_ents(s, j)[k] == x);
    } else {
        lemma_st_children_ents_member(s, j + 1, i, x);
        let a = st_opt_ents(s[j]);
        let b = st_children_ents(s, j + 1);
        let k = choose|k: int| 0 <= k < b.len() && b[k] == x;
        assert(st_children_ents(s, j)[a.len() + k] == x);
    }
}

/// Pointwise-related child slots give pointwise-related space subtrees.
pub proof fn lemma_st_children_pointwise(
    r: spec_fn(Entity, Entity) -> bool,
    s1: Seq<Option<Box<SpaceTree>>>,
    s2: Seq<Option<Box<SpaceTree>>>,
    i: int,
)
    requires
        s1.len() == 8,
        s2.len() == 8,
        forall|j: int|
            0 <= j < 8 ==> crate::matter_tree::pointwise(
                r,
                st_opt_ents(#[trigger] s1[j]),
                st_opt_ents(s2[j]),
            ),
    ensures
        crate::matter_tree::pointwise(r, st_children_ents(s1, i), st_children_ents(s2, i)),
    decreases 9 - i,
{
    if i < 0 || i >= 8 {
        assert(crate::matter_tree::pointwise(r, Seq::<Entity>::empty(), Seq::<Entity>::empty()));
    } else {
        lemma_st_children_pointwise(r, s1, s2, i + 1);
        crate::matter_tree::lemma_pointwise_concat(
            r,
            st_opt_ents(s1[i]),
            st_opt_ents(s2[i]),
            st_children_ents(s1, i + 1),
            st_children_ents(s2, i + 1),
        );
    }
}

/// An index-wise property of the whole space subtree's entities transfers to
/// any child slot's entities.
pub proof fn lemma_st_movements_ok_child(p: SpaceTreeParent, i: int)
    requires
        p.sub_trees@.len() == 8,
        0 <= i < 8,
        crate::matter_tree::movements_ok(st_ents(SpaceTree::Parent(p))),
    ensures
        crate::matter_tree::movements_ok(st_opt_ents(p.sub_trees@[i])),
{
    let whole = st_ents(SpaceTree::Parent(p));
    assert forall|k: int|
        0 <= k < st_opt_ents(p.sub_trees@[i]).len() implies crate::matter_tree::movement_ok(
        #[trigger] st_opt_ents(p.sub_trees@[i])[k],
    ) by {
        let x = st_opt_ents(p.sub_trees@[i])[k];
        assert(st_opt_ents(p.sub_trees@[i]).contains(x));
        lemma_st_children_ents_member(p.sub_trees@, 0, i, x);
        assert(whole.contains(x));
        let m = choose|m: int| 0 <= m < whole.len() && whole[m] == x;
        assert(crate::matter_tree::movement_ok(whole[m]));
    }
}

pub proof fn lemma_st_movements_ok_children(s: Seq<Option<Box<SpaceTree>>>, i: int)
    requires
        s.len() == 8,
        forall|j: int| 0 <= j < 8 ==> crate::matter_tree::movements_ok(
            st_opt_ents(#[trigger] s[j]),
        ),
    ensures
        crate::matter_tree::movements_ok(st_children_ents(s, i)),
    decreases 9 - i,
{
    if i < 0 || i >= 8 {
        assert(crate::matter_tree::movements_ok(Seq::<Entity>::empty()));
    } else {
        lemma_st_movements_ok_children(s, i + 1);
        crate::matter_tree::lemma_movements_ok_concat(st_opt_ents(s[i]), st_children_ents(s, i + 1));
    }
}

pub proof fn lemma_st_all_moderate_child(p: SpaceTreeParent, i: int)
    requires
        p.sub_trees@.len() == 8,
        0 <= i < 8,
        crate::matter_tree::all_moderate(st_ents(SpaceTree::Parent(p))),
    ensures
        crate::matter_tree::all_moderate(st_opt_ents(p.sub_trees@[i])),
{
    let whole = st_ents(SpaceTree::Parent(p));
    assert forall|k: int|
        0 <= k < st_opt_ents(p.sub_trees@[i]).len() implies crate::matter_tree::moderate(
        #[trigger] st_opt_ents(p.sub_trees@[i])[k],
    ) by {
        let x = st_opt_ents(p.sub_trees@[i])[k];
        assert(st_opt_ents(p.sub_trees@[i]).contains(x));
        lemma_st_children_ents_member(p.sub_trees@, 0, i, x);
        assert(whole.contains(x));
        let m = choose|m: int| 0 <= m < whole.len() && whole[m] == x;
        assert(crate::matter_tree::moderate(whole[m]));
    }
}

pub proof fn lemma_st_tick_moderate_child(p: SpaceTreeParent, i: int)
    requires
        p.sub_trees@.len() == 8,
        0 <= i < 8,
        crate::matter_tree::all_tick_moderate(st_ents(SpaceTree::Parent(p))),
    ensures
        crate::matter_tree::all_tick_moderate(st_opt_ents(p.sub_trees@[i])),
{
    let whole = st_ents(SpaceTree::Parent(p));
    assert forall|k: int|
        0 <= k < st_opt_ents(p.sub_trees@[i]).len() implies crate::matter_tree::tick_moderate(
        #[trigger] st_opt_ents(p.sub_trees@[i])[k],
    ) by {
        let x = st_opt_ents(p.sub_trees@[i])[k];
        assert(st_opt_ents(p.sub_trees@[i]).contains(x));
        lemma_st_children_ents_member(p.sub_trees@, 0, i, x);
        assert(whole.contains(x));
        let m = choose|m: int| 0 <= m < whole.len() && whole[m] == x;
        assert(crate::matter_tree::tick_moderate(whole[m]));
    }
}

pub proof fn lemma_st_landing_children(s: Seq<Option<Box<SpaceTree>>>, i: int)
    requires
        s.len() == 8,
        forall|j: int| 0 <= j < 8 ==> crate::matter_tree::all_landing_moderate(
            st_opt_ents(#[trigger] s[j]),
        ),
    ensures
        crate::matter_tree::all_landing_moderate(st_children_ents(s, i)),
    decreases 9 - i,
{
    if i < 0 || i >= 8 {
        assert(crate::matter_tree::all_landing_moderate(Seq::<Entity>::empty()));
    } else {
        lemma_st_landing_children(s, i + 1);
        crate::matter_tree::lemma_landing_concat(st_opt_ents(s[i]), st_children_ents(s, i + 1));
    }
}

pub proof fn lemma_st_spawns_ok_child(p: SpaceTreeParent, i: int)
    requires
        p.sub_trees@.len() == 8,
        0 <= i < 8,
        crate::matter_tree::spawns_ok(st_ents(SpaceTree::Parent(p))),
    ensures
        crate::matter_tree::spawns_ok(st_opt_ents(p.sub_trees@[i])),
{
    let whole = st_ents(SpaceTree::Parent(p));
    assert forall|k: int|
        0 <= k < st_opt_ents(p.sub_trees@[i]).len() implies crate::matter_tree::spawn_fits(
        #[trigger] st_opt_ents(p.sub_trees@[i])[k],
    ) by {
        let x = st_opt_ents(p.sub_trees@[i])[k];
        assert(st_opt_ents(p.sub_trees@[i]).contains(x));
        lemma_st_children_ents_member(p.sub_trees@, 0, i, x);
        assert(whole.contains(x));
        let m = choose|m: int| 0 <= m < whole.len() && whole[m] == x;
        assert(crate::matter_tree::spawn_fits(whole[m]));
    }
}

/// Every matter leaf of the universe satisfies the matter containment
/// invariant: no stored entity has left its cell, and face-crossers sit only
/// at a matter root.
pub open spec fn st_contained(t: SpaceTree) -> bool
    decreases t, 1int,
{
    match t {
        SpaceTree::Matter(m) => crate::matter_tree::contained(m),
        SpaceTree::Parent(p) => st_contained_children(p.sub_trees@, 0),
    }
}

pub open spec fn st_contained_opt(o: Option<Box<SpaceTree>>) -> bool
    decreases o, 0int,
{
    match o {
        None => true,
        Some(c) => st_contained(*c),
    }
}

pub open spec fn st_contained_children(s: Seq<Option<Box<SpaceTree>>>, i: int) -> bool
    decreases s, 9 - i,
{
    i < 0 || i >= 8 || i >= s.len() || {
        &&& st_contained_opt(s[i])
        &&& st_contained_children(s, i + 1)
    }
}

pub proof fn lemma_st_contained_children_iff(s: Seq<Option<Box<SpaceTree>>>, i: int)
    requires
        s.len() == 8,
        0 <= i <= 8,
    ensures
        st_contained_children(s, i) <==> (forall|j: int|
            i <= j < 8 ==> st_contained_opt(#[trigger] s[j])),
    decreases 8 - i,
{
    if i < 8 {
        lemma_st_contained_children_iff(s, i + 1);
    }
}

/// An entity whose center lies inside the matter extent, judged in the frame
/// every matter leaf shares.
pub open spec fn in_home_band(e: Entity) -> bool {
    crate::geometry::in_centered_cube(e.bounding_sphere.center, MAX_SIZE as int)
}

pub open spec fn all_in_home_band(s: Seq<EntityToDisplaceDown>) -> bool {
    forall|k: int| 0 <= k < s.len() ==> in_home_band((#[trigger] s[k]).entity)
}

/// An entity inside the matter extent is admissible at a matter root: its
/// center is inside the root cell, whose own faces it may cross.
pub proof fn lemma_home_band_admissible(e: Entity, m: MatterTree)
    requires
        in_home_band(e),
        m.scale == MAX_SCALE,
        matter_root_area(m.area),
    ensures
        crate::matter_tree::admissible(e, m.scale, m.area),
{
    crate::geometry::lemma_div_trunc_bounds(MAX_SIZE as int, 2);
    assert(crate::matter_tree::rel_x(e.bounding_sphere, m.area) == e.bounding_sphere.center.x);
    assert(crate::matter_tree::rel_y(e.bounding_sphere, m.area) == e.bounding_sphere.center.y);
    assert(crate::matter_tree::rel_z(e.bounding_sphere, m.area) == e.bounding_sphere.center.z);
}

/// A moderately strayed entity lands back inside the matter extent after the
/// one-cell rescale toward its neighbor.
pub proof fn lemma_switch_home_band(c: int, size: int)
    requires
        size == MAX_SIZE,
        -3 * (MAX_SIZE as int) / 2 < c < 3 * (MAX_SIZE as int) / 2,
    ensures
        ({
            let shifted = c - (crate::geometry::spec_component(
                c,
                crate::geometry::div_trunc(size, 2),
            ) - 1) * size;
            crate::geometry::div_trunc(-size, 2) <= shifted <= crate::geometry::div_trunc(size, 2)
                - 1
        }),
{
}

/// What a collision pass leaves of the universe: the same space nodes, each
/// matter leaf collision-shaped with its old self.
pub open spec fn st_collision_shape(t0: SpaceTree, t1: SpaceTree) -> bool
    decreases t0, 1int,
{
    match t0 {
        SpaceTree::Matter(m0) => t1 matches SpaceTree::Matter(m1)
            && crate::matter_tree::collision_shape(m0, m1),
        SpaceTree::Parent(p0) => t1 matches SpaceTree::Parent(p1) && p1.scale == p0.scale
            && p1.sub_trees@.len() == p0.sub_trees@.len() && st_collision_shape_children(
            p0.sub_trees@,
            p1.sub_trees@,
            0,
        ),
    }
}

pub open spec fn st_collision_shape_opt(
    o0: Option<Box<SpaceTree>>,
    o1: Option<Box<SpaceTree>>,
) -> bool
    decreases o0, 0int,
{
    match o0 {
        None => o1 is None,
        Some(a) => match o1 {
            None => false,
            Some(b) => st_collision_shape(*a, *b),
        },
    }
}

pub open spec fn st_collision_shape_children(
    s0: Seq<Option<Box<SpaceTree>>>,
    s1: Seq<Option<Box<SpaceTree>>>,
    i: int,
) -> bool
    decreases s0, 9 - i,
{
    i < 0 || i >= 8 || i >= s0.len() || i >= s1.len() || {
        &&& st_collision_shape_opt(s0[i], s1[i])
        &&& st_collision_shape_children(s0, s1, i + 1)
    }
}

pub proof fn lemma_st_collision_shape_children_iff(
    s0: Seq<Option<Box<SpaceTree>>>,
    s1: Seq<Option<Box<SpaceTree>>>,
    i: int,
)
    requires
        s0.len() == 8,
        s1.len() == 8,
        0 <= i <= 8,
    ensures
        st_collision_shape_children(s0, s1, i) <==> (forall|j: int|
            i <= j < 8 ==> st_collision_shape_opt(#[trigger] s0[j], s1[j])),
    decreases 8 - i,
{
    if i < 8 {
        lemma_st_collision_shape_children_iff(s0, s1, i + 1);
    }
}

/// A collision pass keeps the no-empty invariant and the root's tightness.
pub proof fn lemma_st_collision_shape_no_empty(t0: SpaceTree, t1: SpaceTree)
    requires
        st_collision_shape(t0, t1),
        st_wf(t0),
        st_no_empty(t0),
    ensures
        st_no_empty(t1),
        st_is_empty(t1) == st_is_empty(t0),
        root_tight(t0) ==> root_tight(t1),
    decreases t0, 2int,
{
    match (t0, t1) {
        (SpaceTree::Matter(m0), SpaceTree::Matter(m1)) => {
            crate::matter_tree::lemma_collision_shape_no_empty(m0, m1);
        },
        (SpaceTree::Parent(p0), SpaceTree::Parent(p1)) => {
            lemma_st_collision_shape_children_iff(p0.sub_trees@, p1.sub_trees@, 0);
            lemma_st_no_empty_children_iff(p0.sub_trees@, 0);
            lemma_st_children_wf_iff(p0.sub_trees@, p0.scale, 0);
            assert forall|j: int| 0 <= j < 8 implies st_no_empty_opt(
                #[trigger] p1.sub_trees@[j],
            ) by {
                assert(st_collision_shape_opt(p0.sub_trees@[j], p1.sub_trees@[j]));
                assert(st_no_empty_opt(p0.sub_trees@[j]));
                assert(st_child_ok(p0.sub_trees@[j], p0.scale));
                match (p0.sub_trees@[j], p1.sub_trees@[j]) {
                    (Some(a), Some(b)) => {
                        lemma_st_collision_shape_no_empty(*a, *b);
                    },
                    _ => {},
                }
            }
            lemma_st_no_empty_children_iff(p1.sub_trees@, 0);
            assert forall|j: int|
                0 <= j < 8 implies ((#[trigger] p1.sub_trees@[j]) is Some <==> p0.sub_trees@[j]
                is Some) by {
                assert(st_collision_shape_opt(p0.sub_trees@[j], p1.sub_trees@[j]));
            }
            lemma_count_some_same(p0.sub_trees@, p1.sub_trees@, 0);
        },
        _ => {},
    }
}

/// A collision pass keeps every matter leaf contained.
pub proof fn lemma_st_collision_shape_contained(t0: SpaceTree, t1: SpaceTree)
    requires
        st_collision_shape(t0, t1),
        st_contained(t0),
        st_wf(t0),
    ensures
        st_contained(t1),
    decreases t0, 2int,
{
    match (t0, t1) {
        (SpaceTree::Matter(m0), SpaceTree::Matter(m1)) => {
            crate::matter_tree::lemma_collision_shape_contained(m0, m1);
        },
        (SpaceTree::Parent(p0), SpaceTree::Parent(p1)) => {
            lemma_st_collision_shape_children_iff(p0.sub_trees@, p1.sub_trees@, 0);
            lemma_st_contained_children_iff(p0.sub_trees@, 0);
            lemma_st_children_wf_iff(p0.sub_trees@, p0.scale, 0);
            assert forall|j: int| 0 <= j < 8 implies st_contained_opt(
                #[trigger] p1.sub_trees@[j],
            ) by {
                assert(st_collision_shape_opt(p0.sub_trees@[j], p1.sub_trees@[j]));
                assert(st_contained_opt(p0.sub_trees@[j]));
                assert(st_child_ok(p0.sub_trees@[j], p0.scale));
                match (p0.sub_trees@[j], p1.sub_trees@[j]) {
                    (Some(a), Some(b)) => {
                        lemma_st_collision_shape_contained(*a, *b);
                    },
                    _ => {},
                }
            }
            lemma_st_contained_children_iff(p1.sub_trees@, 0);
        },
        _ => {},
    }
}

pub proof fn lemma_count_some_same(
    s0: Seq<Option<Box<SpaceTree>>>,
    s1: Seq<Option<Box<SpaceTree>>>,
    i: int,
)
    requires
        s0.len() == 8,
        s1.len() == 8,
        forall|j: int| 0 <= j < 8 ==> ((#[trigger] s1[j]) is Some <==> s0[j] is Some),
    ensures
        count_some(s1, i) == count_some(s0, i),
    decreases s0.len() - i,
{
    if 0 <= i < 8 {
        lemma_count_some_same(s0, s1, i + 1);
    } else if i < 0 {
        lemma_count_some_same(s0, s1, 0);
        assert(count_some(s0, i) == 0);
        assert(count_some(s1, i) == 0);
    }
}

/// How many of a batch of descending entities name octant `q` as their next
/// step down.
pub open spec fn downs_to(s: Seq<EntityToDisplaceDown>, q: int) -> nat
    decreases s.len(),
{
    if s.len() == 0 {
        0
    } else {
        downs_to(s.drop_last(), q) + (if s.last().path@.len() > 0 && s.last().path@.last().idx()
            == q {
            1nat
        } else {
            0nat
        })
    }
}

/// A row of empty descent batches holds no entities.
pub proof fn lemma_downs_all_empty(s: Seq<Vec<EntityToDisplaceDown>>, i: int)
    requires
        forall|j: int| 0 <= j < s.len() ==> (#[trigger] s[j])@.len() == 0,
    ensures
        downs_total(s, i) == 0,
    decreases s.len() - i,
{
    if 0 <= i < s.len() {
        lemma_downs_all_empty(s, i + 1);
    }
}

} // verus!
