//! The fixed-extent octree in which entities live and physics runs: cells of
//! scales `0..=MAX_SCALE`, each entity stored at the smallest cell that wholly
//! contains it, with a per-tick relocation pass that bubbles leavers upward
//! and settles movers downward.

use vstd::prelude::*;
use vstd::multiset::Multiset;
use crate::entity::Entity;
use crate::geometry::{div_i64, div_trunc, Cube, FineDirection, Quadrant, Vec3};

verus! {

broadcast use
    vstd::seq_lib::group_to_multiset_ensures,
    vstd::seq_lib::lemma_multiset_commutative,
    vstd::multiset::group_multiset_axioms,
    vstd::multiset::lemma_multiset_empty_len,
;

/// Side of the smallest matter cell, in length units.
pub const MIN_SIZE: i64 = 32;

/// Depth of the matter root below which no cell subdivides further.
pub const MAX_SCALE: u32 = 8;

/// Side of the matter root cell: `MIN_SIZE * 2^MAX_SCALE`.
pub const MAX_SIZE: i64 = 8192;

/// The area of the `q`-octant child of a cell: same origin shifted by half
/// the side on each positive axis, half the side.
pub open spec fn child_area_of(area: Cube, q: int) -> Cube {
    let half = div_trunc(area.size as int, 2);
    Cube {
        origin: Vec3 {
            x: (area.origin.x + (if q >= 4 { half } else { 0 })) as i64,
            y: (area.origin.y + (if q % 4 >= 2 { half } else { 0 })) as i64,
            z: (area.origin.z + (if q % 2 == 1 { half } else { 0 })) as i64,
        },
        size: half as i64,
    }
}

/// How an entity relates to a cell: exactly one of these, judged in this
/// order.
#[derive(Clone, Copy, PartialEq, Eq, Structural, Debug)]
pub enum CellPart {
    /// The sphere's center lies outside the cell.
    CenterOutside,
    /// The center is inside but the sphere crosses a face of the cell.
    PartlyOutside,
    /// Inside the cell but not wholly inside any single octant.
    MultiQuadrant,
    /// The sphere lies wholly inside this octant's sub-cube.
    Quadrant(Quadrant),
}

/// A sphere that does not stick out of `area`: stored strictly inside, it is
/// never evicted from a cell with this area.
pub open spec fn snug(s: crate::geometry::Sphere, area: Cube) -> bool {
    classify(s, area) is MultiQuadrant || classify(s, area) is Quadrant
}

/// Halving an even number with truncating division is exact.
pub proof fn lemma_div_trunc_exact(k: int)
    ensures
        div_trunc(2 * k, 2) == k,
{
    if k > 0 {
        assert((2 * k) / 2 == k) by (nonlinear_arith);
    } else if k < 0 {
        assert((2 * k * -1) / 2 == k * -1) by (nonlinear_arith);
    }
}

/// Truncating division by a positive divisor is monotone in the dividend.
pub proof fn lemma_div_trunc_mono(a: int, b: int, d: int)
    requires
        a <= b,
        d >= 1,
    ensures
        div_trunc(a, d) <= div_trunc(b, d),
{
    crate::geometry::lemma_div_trunc_bounds(a, d);
    crate::geometry::lemma_div_trunc_bounds(b, d);
    if a >= 0 {
        vstd::arithmetic::div_mod::lemma_div_is_ordered(a, b, d);
    } else if b < 0 {
        vstd::arithmetic::div_mod::lemma_div_is_ordered(b * -1, a * -1, d);
    }
}

/// A centered cube grows with its side.
pub proof fn lemma_in_cube_mono(x: int, y: int, z: int, s1: int, s2: int)
    requires
        crate::geometry::in_centered_cube_xyz(x, y, z, s1),
        s1 <= s2,
    ensures
        crate::geometry::in_centered_cube_xyz(x, y, z, s2),
{
    lemma_div_trunc_mono(s1, s2, 2);
    lemma_div_trunc_mono(-s2, -s1, 2);
}

/// Cell sides are even, so halving them is exact.
pub proof fn lemma_scale_size_even(s: nat)
    ensures
        scale_size(s) == 2 * div_trunc(scale_size(s), 2),
    decreases s,
{
    if s == 0 {
        lemma_div_trunc_exact(16);
    } else {
        lemma_div_trunc_exact(scale_size((s - 1) as nat));
    }
}

/// Cell sides stay within the root's: between `MIN_SIZE` and `MAX_SIZE` for
/// every scale a matter tree uses.
pub proof fn lemma_scale_size_bounds(s: nat)
    requires
        s <= MAX_SCALE,
    ensures
        MIN_SIZE <= scale_size(s) <= MAX_SIZE,
    decreases MAX_SCALE - s,
{
    lemma_scale_size_positive(s);
    if s == MAX_SCALE {
        lemma_max_scale_size();
    } else {
        lemma_scale_size_bounds((s + 1) as nat);
        lemma_scale_size_positive((s + 1) as nat);
    }
}

/// The first fitting octant does fit, and lies in range.
pub proof fn lemma_first_fitting_fits(x: int, y: int, z: int, radius: int, size: int, i: int, j: int)
    requires
        first_fitting_quadrant(x, y, z, radius, size, i) == Some(j),
    ensures
        i <= j < 8,
        crate::geometry::sphere_in_quadrant_xyz(x, y, z, radius, size, j),
    decreases 8 - i,
{
    if !(i < 0 || i >= 8) && !crate::geometry::sphere_in_quadrant_xyz(x, y, z, radius, size, i) {
        lemma_first_fitting_fits(x, y, z, radius, size, i + 1, j);
    }
}

/// A sphere wholly inside octant `q` of a cell is snug in that octant's child
/// cell: relative to the child's center it fits the child's cube shrunk by
/// its radius.
pub proof fn lemma_quadrant_fit_to_child(s: crate::geometry::Sphere, scale: u32, area: Cube, q: int)
    requires
        area.size == scale_size(scale as nat),
        scale >= 1,
        0 <= q < 8,
        s.radius >= 0,
        crate::geometry::sphere_in_quadrant_xyz(
            rel_x(s, area),
            rel_y(s, area),
            rel_z(s, area),
            s.radius as int,
            area.size as int,
            q,
        ),
    ensures
        snug(s, child_area_of(area, q)),
{
    let ca = child_area_of(area, q);
    let big = area.size as int;
    let half = div_trunc(big, 2);
    let quarter = div_trunc(half, 2);
    lemma_scale_size_even(scale as nat);
    lemma_scale_size_even((scale - 1) as nat);
    assert(half == scale_size((scale - 1) as nat)) by {
        lemma_div_trunc_exact(scale_size((scale - 1) as nat));
    }
    assert(half == 2 * quarter);
    let sx = if q >= 4 { quarter } else { -quarter };
    let sy = if q % 4 >= 2 { quarter } else { -quarter };
    let sz = if q % 2 == 1 { quarter } else { -quarter };
    assert(ca.size == half);
    assert(div_trunc(ca.size as int, 2) == quarter);
    assert(rel_x(s, ca) == rel_x(s, area) - sx);
    assert(rel_y(s, ca) == rel_y(s, area) - sy);
    assert(rel_z(s, ca) == rel_z(s, area) - sz);
    assert(crate::geometry::in_centered_cube_xyz(
        rel_x(s, ca),
        rel_y(s, ca),
        rel_z(s, ca),
        half - s.radius,
    ));
    lemma_in_cube_mono(rel_x(s, ca), rel_y(s, ca), rel_z(s, ca), half - s.radius, half);
}

/// An entity of a child subtree is an entity of the children row.
pub proof fn lemma_children_ents_member(
    s: Seq<Option<Box<MatterTree>>>,
    j: int,
    i: int,
    x: Entity,
)
    requires
        s.len() == 8,
        0 <= j <= i < 8,
        opt_ents(s[i]).contains(x),
    ensures
        children_ents(s, j).contains(x),
    decreases i - j,
{
    if j == i {
        let k = choose|k: int| 0 <= k < opt_ents(s[i]).len() && opt_ents(s[i])[k] == x;
        assert(children_ents(s, j)[k] == x);
    } else {
        lemma_children_ents_member(s, j + 1, i, x);
        let a = opt_ents(s[j]);
        let b = children_ents(s, j + 1);
        let k = choose|k: int| 0 <= k < b.len() && b[k] == x;
        assert(children_ents(s, j)[a.len() + k] == x);
    }
}

/// An entity of the local list or of a child subtree is an entity of the
/// whole subtree.
pub proof fn lemma_tree_ents_member(t: MatterTree, x: Entity)
    requires
        t.sub_trees@.len() == 8,
    ensures
        t.entities@.contains(x) ==> tree_ents(t).contains(x),
        forall|i: int|
            0 <= i < 8 && opt_ents(#[trigger] t.sub_trees@[i]).contains(x) ==> tree_ents(
                t,
            ).contains(x),
{
    if t.entities@.contains(x) {
        let k = choose|k: int| 0 <= k < t.entities@.len() && t.entities@[k] == x;
        assert(tree_ents(t)[k] == x);
    }
    assert forall|i: int|
        0 <= i < 8 && opt_ents(#[trigger] t.sub_trees@[i]).contains(x) implies tree_ents(
        t,
    ).contains(x) by {
        lemma_children_ents_member(t.sub_trees@, 0, i, x);
        let b = children_ents(t.sub_trees@, 0);
        let k = choose|k: int| 0 <= k < b.len() && b[k] == x;
        assert(tree_ents(t)[t.entities@.len() + k] == x);
    }
}

/// A sphere's center coordinate relative to the center of `area`.
pub open spec fn rel_x(s: crate::geometry::Sphere, area: Cube) -> int {
    s.center.x - area.origin.x - div_trunc(area.size as int, 2)
}

pub open spec fn rel_y(s: crate::geometry::Sphere, area: Cube) -> int {
    s.center.y - area.origin.y - div_trunc(area.size as int, 2)
}

pub open spec fn rel_z(s: crate::geometry::Sphere, area: Cube) -> int {
    s.center.z - area.origin.z - div_trunc(area.size as int, 2)
}

/// The first octant (by 3-bit code, starting at `i`) whose sub-cube wholly
/// contains the sphere, if any.
pub open spec fn first_fitting_quadrant(
    x: int,
    y: int,
    z: int,
    radius: int,
    size: int,
    i: int,
) -> Option<int>
    decreases 8 - i,
{
    if i < 0 || i >= 8 {
        None
    } else if crate::geometry::sphere_in_quadrant_xyz(x, y, z, radius, size, i) {
        Some(i)
    } else {
        first_fitting_quadrant(x, y, z, radius, size, i + 1)
    }
}

/// How a sphere with center `(x, y, z)` relative to a cell's center relates
/// to that cell of side `size`: the four cases are tested in this order, and
/// the first octant to accept wins.
pub open spec fn classify_xyz(x: int, y: int, z: int, radius: int, size: int) -> CellPart {
    if !crate::geometry::in_centered_cube_xyz(x, y, z, size) {
        CellPart::CenterOutside
    } else if !crate::geometry::in_centered_cube_xyz(x, y, z, size - radius) {
        CellPart::PartlyOutside
    } else {
        match first_fitting_quadrant(x, y, z, radius, size, 0) {
            Some(q) => CellPart::Quadrant(Quadrant::spec_from_idx(q)),
            None => CellPart::MultiQuadrant,
        }
    }
}

/// How a sphere relates to a cell's area.
pub open spec fn classify(s: crate::geometry::Sphere, area: Cube) -> CellPart {
    classify_xyz(rel_x(s, area), rel_y(s, area), rel_z(s, area), s.radius as int, area.size as int)
}

/// The side of a matter cell at the given scale: `MIN_SIZE` doubled `scale`
/// times.
pub open spec fn scale_size(scale: nat) -> int
    decreases scale,
{
    if scale == 0 {
        MIN_SIZE as int
    } else {
        2 * scale_size((scale - 1) as nat)
    }
}

pub proof fn lemma_scale_size_positive(scale: nat)
    ensures
        scale_size(scale) >= MIN_SIZE,
    decreases scale,
{
    if scale > 0 {
        lemma_scale_size_positive((scale - 1) as nat);
    }
}

pub proof fn lemma_max_scale_size()
    ensures
        scale_size(MAX_SCALE as nat) == MAX_SIZE,
{
    reveal_with_fuel(scale_size, 10);
}

/// A cell of the matter octree. `sub_trees` always has eight slots, one per
/// octant, indexed by the octant's 3-bit code.
#[derive(Debug)]
pub struct MatterTree {
    pub scale: u32,
    pub sub_trees: Vec<Option<Box<MatterTree>>>,
    pub entities: Vec<Entity>,
    pub area: Cube,
}

impl MatterTree {
    /// Structural well-formedness: scales and areas are consistent down the
    /// tree, children sit in their octant's sub-cube one scale below, and
    /// every stored entity keeps the coordinate headroom of `ent_in_range`.
    pub open spec fn wf(self) -> bool
        decreases self, 1int,
    {
        &&& self.scale <= MAX_SCALE
        &&& self.area.size == scale_size(self.scale as nat)
        &&& in_root_bounds(self.area)
        &&& self.sub_trees.len() == 8
        &&& ents_in_range(self.entities@)
        &&& wf_children(self.sub_trees@, self.scale, self.area, 0)
    }
}

/// The coordinates every cell of a matter tree stays within: the cell's cube
/// lies inside the root's span. Keeps all cell arithmetic far from the `i64`
/// limits.
pub open spec fn in_root_bounds(area: Cube) -> bool {
    &&& -MAX_SIZE <= area.origin.x && area.origin.x + area.size <= MAX_SIZE
    &&& -MAX_SIZE <= area.origin.y && area.origin.y + area.size <= MAX_SIZE
    &&& -MAX_SIZE <= area.origin.z && area.origin.z + area.size <= MAX_SIZE
    &&& 0 < area.size <= MAX_SIZE
}

/// The coordinate and radius headroom every entity handed to a tree keeps, so
/// that classification and collision arithmetic never overflows.
pub open spec fn ent_in_range(e: Entity) -> bool {
    &&& 0 <= e.bounding_sphere.radius <= 0x2000_0000_0000_0000
    &&& -0x4000_0000_0000_0000 + 2 * MAX_SIZE <= e.bounding_sphere.center.x
        <= 0x4000_0000_0000_0000 - 2 * MAX_SIZE
    &&& -0x4000_0000_0000_0000 + 2 * MAX_SIZE <= e.bounding_sphere.center.y
        <= 0x4000_0000_0000_0000 - 2 * MAX_SIZE
    &&& -0x4000_0000_0000_0000 + 2 * MAX_SIZE <= e.bounding_sphere.center.z
        <= 0x4000_0000_0000_0000 - 2 * MAX_SIZE
}

/// A body that will still be moderately placed after one integration step:
/// both its current center and its center translated by its velocity stay
/// within half a cell of the matter extent.
pub open spec fn landing_moderate(e: Entity) -> bool {
    &&& -3 * (MAX_SIZE as int) / 2 < e.bounding_sphere.center.x + e.speed.x < 3 * (
    MAX_SIZE as int) / 2
    &&& -3 * (MAX_SIZE as int) / 2 < e.bounding_sphere.center.y + e.speed.y < 3 * (
    MAX_SIZE as int) / 2
    &&& -3 * (MAX_SIZE as int) / 2 < e.bounding_sphere.center.z + e.speed.z < 3 * (
    MAX_SIZE as int) / 2
}

pub open spec fn all_landing_moderate(s: Seq<Entity>) -> bool {
    forall|k: int| 0 <= k < s.len() ==> landing_moderate(#[trigger] s[k])
}

pub open spec fn tick_moderate(e: Entity) -> bool {
    moderate(e) && landing_moderate(e)
}

pub open spec fn all_tick_moderate(s: Seq<Entity>) -> bool {
    forall|k: int| 0 <= k < s.len() ==> tick_moderate(#[trigger] s[k])
}

/// Every entity of the sequence is in range.
pub open spec fn ents_in_range(s: Seq<Entity>) -> bool {
    forall|k: int| 0 <= k < s.len() ==> ent_in_range(#[trigger] s[k])
}

/// An entity a cell may accept: it must not stick out of the cell, except
/// that the matter root absorbs entities that cross its faces.
pub open spec fn admissible(e: Entity, scale: u32, area: Cube) -> bool {
    match classify(e.bounding_sphere, area) {
        CellPart::MultiQuadrant => true,
        CellPart::Quadrant(_) => true,
        CellPart::PartlyOutside => scale == MAX_SCALE,
        CellPart::CenterOutside => false,
    }
}

/// Every entity of the sequence is admissible at a cell.
pub open spec fn all_admissible(s: Seq<Entity>, scale: u32, area: Cube) -> bool {
    forall|k: int| 0 <= k < s.len() ==> admissible(#[trigger] s[k], scale, area)
}

/// Every entity of the sequence lies wholly inside octant `q` of `area`.
pub open spec fn all_fit_quadrant(s: Seq<Entity>, area: Cube, q: int) -> bool {
    forall|k: int|
        0 <= k < s.len() ==> classify((#[trigger] s[k]).bounding_sphere, area)
            == CellPart::Quadrant(Quadrant::spec_from_idx(q))
}

/// Where an entity may live at a node: never with its center outside the
/// cell, and crossing the cell's faces only at the matter root, which absorbs
/// such entities.
pub open spec fn local_ok(e: Entity, scale: u32, area: Cube) -> bool {
    &&& !(classify(e.bounding_sphere, area) is CenterOutside)
    &&& classify(e.bounding_sphere, area) is PartlyOutside ==> scale == MAX_SCALE
}

/// An entity that no longer leans on the `<= 1` occupancy rule: it spans
/// several octants of its cell, or crosses only the matter root's faces. The
/// relocation pass leaves exactly such entities at the cell it refreshes.
pub open spec fn local_settled(e: Entity, scale: u32, area: Cube) -> bool {
    ||| classify(e.bounding_sphere, area) is MultiQuadrant
    ||| (classify(e.bounding_sphere, area) is PartlyOutside && scale == MAX_SCALE)
}

/// Containment invariant over a whole subtree: every stored entity may live
/// where it is stored.
pub open spec fn contained(t: MatterTree) -> bool
    decreases t, 1int,
{
    &&& forall|k: int|
        0 <= k < t.entities@.len() ==> local_ok(#[trigger] t.entities@[k], t.scale, t.area)
    &&& contained_children(t.sub_trees@, 0)
}

pub open spec fn contained_opt(o: Option<Box<MatterTree>>) -> bool
    decreases o, 0int,
{
    match o {
        None => true,
        Some(c) => contained(*c),
    }
}

pub open spec fn contained_children(s: Seq<Option<Box<MatterTree>>>, i: int) -> bool
    decreases s, 9 - i,
{
    i < 0 || i >= 8 || i >= s.len() || {
        &&& contained_opt(s[i])
        &&& contained_children(s, i + 1)
    }
}

pub proof fn lemma_contained_children_iff(s: Seq<Option<Box<MatterTree>>>, i: int)
    requires
        s.len() == 8,
        0 <= i <= 8,
    ensures
        contained_children(s, i) <==> (forall|j: int| i <= j < 8 ==> contained_opt(#[trigger] s[j])),
    decreases 8 - i,
{
    if i < 8 {
        lemma_contained_children_iff(s, i + 1);
    }
}

/// No structurally present subtree is empty.
pub open spec fn no_empty_subtrees(t: MatterTree) -> bool
    decreases t, 1int,
{
    no_empty_children(t.sub_trees@, 0)
}

pub open spec fn no_empty_opt(o: Option<Box<MatterTree>>) -> bool
    decreases o, 0int,
{
    match o {
        None => true,
        Some(c) => !c.spec_is_empty() && no_empty_subtrees(*c),
    }
}

pub open spec fn no_empty_children(s: Seq<Option<Box<MatterTree>>>, i: int) -> bool
    decreases s, 9 - i,
{
    i < 0 || i >= 8 || i >= s.len() || {
        &&& no_empty_opt(s[i])
        &&& no_empty_children(s, i + 1)
    }
}

pub proof fn lemma_no_empty_children_iff(s: Seq<Option<Box<MatterTree>>>, i: int)
    requires
        s.len() == 8,
        0 <= i <= 8,
    ensures
        no_empty_children(s, i) <==> (forall|j: int| i <= j < 8 ==> no_empty_opt(#[trigger] s[j])),
    decreases 8 - i,
{
    if i < 8 {
        lemma_no_empty_children_iff(s, i + 1);
    }
}

/// What one child slot of `parent` must satisfy: absent, or a well-formed
/// cell one scale below sitting in its octant's sub-cube.
pub open spec fn child_ok(o: Option<Box<MatterTree>>, scale: u32, area: Cube, i: int) -> bool
    decreases o, 0int,
{
    match o {
        None => true,
        Some(c) => {
            &&& scale > 0
            &&& c.scale == scale - 1
            &&& c.area == child_area_of(area, i)
            &&& c.wf()
        },
    }
}

/// Well-formedness of the children of `parent` from slot `i` on.
pub open spec fn wf_children(s: Seq<Option<Box<MatterTree>>>, scale: u32, area: Cube, i: int) -> bool
    decreases s, 9 - i,
{
    i < 0 || i >= 8 || i >= s.len() || {
        &&& child_ok(s[i], scale, area, i)
        &&& wf_children(s, scale, area, i + 1)
    }
}

/// The recursive children predicate says exactly that every remaining slot is
/// `child_ok`.
pub proof fn lemma_wf_children_iff(s: Seq<Option<Box<MatterTree>>>, scale: u32, area: Cube, i: int)
    requires
        s.len() == 8,
        0 <= i <= 8,
    ensures
        wf_children(s, scale, area, i) <==> (forall|j: int|
            i <= j < 8 ==> child_ok(#[trigger] s[j], scale, area, j)),
    decreases 8 - i,
{
    if i < 8 {
        lemma_wf_children_iff(s, scale, area, i + 1);
    }
}

/// All entities stored in the subtree rooted at a cell, locals first, then
/// the children's in octant order.
pub open spec fn tree_ents(t: MatterTree) -> Seq<Entity>
    decreases t, 1int,
{
    t.entities@ + children_ents(t.sub_trees@, 0)
}

/// The entities of one child slot's subtree.
pub open spec fn opt_ents(o: Option<Box<MatterTree>>) -> Seq<Entity>
    decreases o, 0int,
{
    match o {
        None => Seq::empty(),
        Some(c) => tree_ents(*c),
    }
}

/// The entities of the child subtrees from slot `i` on, concatenated in
/// octant order.
pub open spec fn children_ents(s: Seq<Option<Box<MatterTree>>>, i: int) -> Seq<Entity>
    decreases s, 9 - i,
{
    if i < 0 || i >= 8 || i >= s.len() {
        Seq::empty()
    } else {
        opt_ents(s[i]) + children_ents(s, i + 1)
    }
}

/// Slots beyond `i` alone determine the tail of the children's entities.
pub proof fn lemma_children_ents_agree(
    s1: Seq<Option<Box<MatterTree>>>,
    s2: Seq<Option<Box<MatterTree>>>,
    i: int,
)
    requires
        s1.len() == 8,
        s2.len() == 8,
        forall|j: int| i <= j < 8 ==> s1[j] == s2[j],
    ensures
        children_ents(s1, i) == children_ents(s2, i),
    decreases 9 - i,
{
    if 0 <= i < 8 {
        lemma_children_ents_agree(s1, s2, i + 1);
    }
}

/// Replacing one child slot exchanges exactly that slot's entities, counted
/// as multisets.
pub proof fn lemma_children_ents_update(
    s: Seq<Option<Box<MatterTree>>>,
    i: int,
    v: Option<Box<MatterTree>>,
    j: int,
)
    requires
        s.len() == 8,
        0 <= j <= i < 8,
    ensures
        children_ents(s.update(i, v), j).to_multiset().add(opt_ents(s[i]).to_multiset())
            =~= children_ents(s, j).to_multiset().add(opt_ents(v).to_multiset()),
    decreases i - j,
{
    broadcast use vstd::seq_lib::lemma_multiset_commutative;
    broadcast use vstd::multiset::group_multiset_axioms;

    let s2 = s.update(i, v);
    if j < i {
        lemma_children_ents_update(s, i, v, j + 1);
        assert(s2[j] == s[j]);
        assert(children_ents(s2, j) == opt_ents(s2[j]) + children_ents(s2, j + 1));
        assert(children_ents(s, j) == opt_ents(s[j]) + children_ents(s, j + 1));
        let a = opt_ents(s[j]).to_multiset();
        let x2 = children_ents(s2, j + 1).to_multiset();
        let x = children_ents(s, j + 1).to_multiset();
        let iold = opt_ents(s[i]).to_multiset();
        let vnew = opt_ents(v).to_multiset();
        assert(children_ents(s2, j).to_multiset() =~= a.add(x2));
        assert(children_ents(s, j).to_multiset() =~= a.add(x));
        assert(a.add(x2).add(iold) =~= a.add(x2.add(iold)));
        assert(a.add(x).add(vnew) =~= a.add(x.add(vnew)));
        assert(a.add(x2.add(iold)) =~= a.add(x.add(vnew)));
    } else {
        assert(s2[i] == v);
        lemma_children_ents_agree(s, s2, i + 1);
        assert(children_ents(s2, j) == opt_ents(v) + children_ents(s, j + 1));
        assert(children_ents(s, j) == opt_ents(s[i]) + children_ents(s, j + 1));
        assert(children_ents(s2, j).to_multiset() =~= opt_ents(v).to_multiset().add(
            children_ents(s, j + 1).to_multiset(),
        ));
        assert(children_ents(s, j).to_multiset() =~= opt_ents(s[i]).to_multiset().add(
            children_ents(s, j + 1).to_multiset(),
        ));
    }
}

impl MatterTree {
    /// A whole tree with nothing in it: no locals, no children.
    pub open spec fn spec_is_empty(self) -> bool {
        self.entities@.len() == 0 && forall|i: int| 0 <= i < 8 ==> self.sub_trees@[i] is None
    }

    fn new_tree(scale: u32, area: Cube) -> (r: MatterTree)
        ensures
            r.scale == scale,
            r.area == area,
            r.entities@.len() == 0,
            r.sub_trees@.len() == 8,
            r.spec_is_empty(),
            forall|i: int| 0 <= i < 8 ==> r.sub_trees@[i] is None,
    {
        let mut sub_trees: Vec<Option<Box<MatterTree>>> = Vec::new();
        let mut i: usize = 0;
        while i < 8
            invariant
                i <= 8,
                sub_trees@.len() == i,
                forall|j: int| 0 <= j < i ==> sub_trees@[j] is None,
            decreases 8 - i,
        {
            sub_trees.push(None);
            i = i + 1;
        }
        MatterTree { scale, sub_trees, entities: Vec::new(), area }
    }

    /// A fresh matter root: the full-extent cube centered on the origin.
    pub fn new() -> (r: MatterTree)
        ensures
            r.wf(),
            r.scale == MAX_SCALE,
            r.area.size == MAX_SIZE,
            r.area.origin.x == -(MAX_SIZE as int) / 2,
            r.area.origin.y == -(MAX_SIZE as int) / 2,
            r.area.origin.z == -(MAX_SIZE as int) / 2,
            r.spec_is_empty(),
            tree_ents(r).len() == 0,
    {
        let r = Self::new_tree(
            MAX_SCALE,
            Cube {
                origin: Vec3 { x: -MAX_SIZE / 2, y: -MAX_SIZE / 2, z: -MAX_SIZE / 2 },
                size: MAX_SIZE,
            },
        );
        proof {
            lemma_max_scale_size();
            lemma_wf_children_iff(r.sub_trees@, r.scale, r.area, 0);
            lemma_children_ents_all_none(r.sub_trees@, 0);
        }
        r
    }

    pub fn is_empty(&self) -> (r: bool)
        requires
            self.sub_trees@.len() == 8,
        ensures
            r == self.spec_is_empty(),
    {
        let mut i: usize = 0;
        let mut none_so_far = true;
        while i < 8
            invariant
                i <= 8,
                self.sub_trees@.len() == 8,
                none_so_far == (forall|j: int| 0 <= j < i ==> self.sub_trees@[j] is None),
            decreases 8 - i,
        {
            if self.sub_trees[i].is_some() {
                none_so_far = false;
            }
            i = i + 1;
        }
        none_so_far && self.entities.len() == 0
    }

    /// The number of entities stored in this subtree.
    pub fn nb_entities(&self) -> (r: usize)
        requires
            self.wf(),
            tree_ents(*self).len() <= usize::MAX,
        ensures
            r == tree_ents(*self).len(),
        decreases self.scale,
    {
        proof {
            lemma_wf_children_iff(self.sub_trees@, self.scale, self.area, 0);
        }
        let mut count: usize = self.entities.len();
        let mut i: usize = 0;
        while i < 8
            invariant
                i <= 8,
                self.wf(),
                tree_ents(*self).len() <= usize::MAX,
                count + children_ents(self.sub_trees@, i as int).len() == tree_ents(*self).len(),
                forall|j: int| 0 <= j < 8 ==> child_ok(#[trigger] self.sub_trees@[j], self.scale, self.area, j),
            decreases 8 - i,
        {
            proof {
                assert(children_ents(self.sub_trees@, i as int) == opt_ents(self.sub_trees@[i as int])
                    + children_ents(self.sub_trees@, i as int + 1));
            }
            match &self.sub_trees[i] {
                Some(c) => {
                    count = count + c.nb_entities();
                },
                None => {},
            }
            i = i + 1;
        }
        count
    }

    /// The number of cells in this subtree, this one included.
    pub fn nb_nodes(&self) -> (r: usize)
        requires
            self.wf(),
            tree_nodes(*self) <= usize::MAX,
        ensures
            r == tree_nodes(*self),
        decreases self.scale,
    {
        proof {
            lemma_wf_children_iff(self.sub_trees@, self.scale, self.area, 0);
        }
        let mut count: usize = 1;
        let mut i: usize = 0;
        while i < 8
            invariant
                i <= 8,
                self.wf(),
                tree_nodes(*self) <= usize::MAX,
                count + children_nodes(self.sub_trees@, i as int) == tree_nodes(*self),
                forall|j: int| 0 <= j < 8 ==> child_ok(#[trigger] self.sub_trees@[j], self.scale, self.area, j),
            decreases 8 - i,
        {
            proof {
                assert(children_nodes(self.sub_trees@, i as int) == opt_nodes(
                    self.sub_trees@[i as int],
                ) + children_nodes(self.sub_trees@, i as int + 1));
            }
            match &self.sub_trees[i] {
                Some(c) => {
                    count = count + c.nb_nodes();
                },
                None => {},
            }
            i = i + 1;
        }
        count
    }
}

/// An all-empty child row contributes no entities.
pub proof fn lemma_children_ents_all_none(s: Seq<Option<Box<MatterTree>>>, i: int)
    requires
        forall|j: int| 0 <= j < s.len() ==> s[j] is None,
    ensures
        children_ents(s, i).len() == 0,
    decreases 9 - i,
{
    if 0 <= i < 8 && i < s.len() {
        lemma_children_ents_all_none(s, i + 1);
        assert(s[i] is None);
        assert(children_ents(s, i) == opt_ents(s[i]) + children_ents(s, i + 1));
    }
}

/// The number of cells in the subtree rooted at `t`, itself included.
pub open spec fn tree_nodes(t: MatterTree) -> nat
    decreases t, 1int,
{
    1 + children_nodes(t.sub_trees@, 0)
}

pub open spec fn opt_nodes(o: Option<Box<MatterTree>>) -> nat
    decreases o, 0int,
{
    match o {
        None => 0,
        Some(c) => tree_nodes(*c),
    }
}

pub open spec fn children_nodes(s: Seq<Option<Box<MatterTree>>>, i: int) -> nat
    decreases s, 9 - i,
{
    if i < 0 || i >= 8 || i >= s.len() {
        0
    } else {
        opt_nodes(s[i]) + children_nodes(s, i + 1)
    }
}

/// The entities of a row of per-octant buckets, from slot `i` on, as a
/// multiset.
pub open spec fn buckets_ms(s: Seq<Vec<Entity>>, i: int) -> Multiset<Entity>
    decreases s.len() - i,
{
    if i < 0 || i >= s.len() {
        Multiset::empty()
    } else {
        s[i]@.to_multiset().add(buckets_ms(s, i + 1))
    }
}

/// Dropping the last bucket takes exactly its entities out of the row.
pub proof fn lemma_buckets_ms_pop(s: Seq<Vec<Entity>>, i: int)
    requires
        0 <= i < s.len(),
    ensures
        buckets_ms(s, i) =~= buckets_ms(s.drop_last(), i).add(s[s.len() - 1]@.to_multiset()),
    decreases s.len() - i,
{
    broadcast use vstd::multiset::group_multiset_axioms;

    if i == s.len() - 1 {
        assert(buckets_ms(s.drop_last(), i) =~= Multiset::empty());
        assert(buckets_ms(s, i + 1) =~= Multiset::empty());
    } else {
        lemma_buckets_ms_pop(s, i + 1);
        assert(s.drop_last()[i] == s[i]);
    }
}

/// Replacing one bucket exchanges exactly that bucket's entities.
pub proof fn lemma_buckets_ms_update(s: Seq<Vec<Entity>>, j: int, v: Vec<Entity>, i: int)
    requires
        0 <= i <= j < s.len(),
    ensures
        buckets_ms(s.update(j, v), i).add(s[j]@.to_multiset()) =~= buckets_ms(s, i).add(
            v@.to_multiset(),
        ),
    decreases j - i,
{
    broadcast use vstd::multiset::group_multiset_axioms;

    let s2 = s.update(j, v);
    if i < j {
        lemma_buckets_ms_update(s, j, v, i + 1);
        assert(s2[i] == s[i]);
        let a = s[i]@.to_multiset();
        let x2 = buckets_ms(s2, i + 1);
        let x = buckets_ms(s, i + 1);
        let jold = s[j]@.to_multiset();
        let vnew = v@.to_multiset();
        assert(buckets_ms(s2, i) == a.add(x2));
        assert(buckets_ms(s, i) == a.add(x));
        assert(a.add(x2).add(jold) =~= a.add(x2.add(jold)));
        assert(a.add(x).add(vnew) =~= a.add(x.add(vnew)));
        assert(a.add(x2.add(jold)) =~= a.add(x.add(vnew)));
    } else {
        lemma_buckets_ms_agree(s, s2, i + 1);
        assert(s2[i] == v);
        assert(buckets_ms(s2, i) == v@.to_multiset().add(buckets_ms(s2, i + 1)));
        assert(buckets_ms(s, i) == s[j]@.to_multiset().add(buckets_ms(s, i + 1)));
    }
}

pub proof fn lemma_buckets_ms_agree(s1: Seq<Vec<Entity>>, s2: Seq<Vec<Entity>>, i: int)
    requires
        s1.len() == s2.len(),
        forall|j: int| i <= j < s1.len() ==> s1[j] == s2[j],
    ensures
        buckets_ms(s1, i) == buckets_ms(s2, i),
    decreases s1.len() - i,
{
    if 0 <= i < s1.len() {
        lemma_buckets_ms_agree(s1, s2, i + 1);
    } else if i < 0 {
        lemma_buckets_ms_agree(s1, s2, 0);
        assert(buckets_ms(s1, i) == Multiset::<Entity>::empty());
        assert(buckets_ms(s2, i) == Multiset::<Entity>::empty());
    }
}

/// Every entity of `s` from position `from` on may live at a cell of the
/// given scale and area.
pub open spec fn locals_ok_from(s: Seq<Entity>, from: int, scale: u32, area: Cube) -> bool {
    forall|k: int| from <= k < s.len() ==> local_ok(#[trigger] s[k], scale, area)
}

pub proof fn lemma_locals_ok_push(s: Seq<Entity>, e: Entity, from: int, scale: u32, area: Cube)
    requires
        0 <= from,
        locals_ok_from(s, from, scale, area),
        local_ok(e, scale, area),
    ensures
        locals_ok_from(s.push(e), from, scale, area),
{
    assert forall|k: int| from <= k < s.push(e).len() implies local_ok(
        #[trigger] s.push(e)[k],
        scale,
        area,
    ) by {
        if k < s.len() {
            assert(s.push(e)[k] == s[k]);
        } else {
            assert(k == s.len());
            assert(s.push(e)[s.len() as int] == e);
        }
    }
}

/// A center that has strayed less than half a cell past its matter extent:
/// one boundary rescale brings such an entity back inside the extent.
pub open spec fn moderate(e: Entity) -> bool {
    &&& -3 * (MAX_SIZE as int) / 2 < e.bounding_sphere.center.x < 3 * (MAX_SIZE as int) / 2
    &&& -3 * (MAX_SIZE as int) / 2 < e.bounding_sphere.center.y < 3 * (MAX_SIZE as int) / 2
    &&& -3 * (MAX_SIZE as int) / 2 < e.bounding_sphere.center.z < 3 * (MAX_SIZE as int) / 2
}

pub open spec fn all_moderate(s: Seq<Entity>) -> bool {
    forall|k: int| 0 <= k < s.len() ==> moderate(#[trigger] s[k])
}

/// A property of every entity of a whole carries to any part of a split of
/// its multiset.
pub proof fn lemma_moderate_transfer(part: Seq<Entity>, rest: Multiset<Entity>, whole: Seq<Entity>)
    requires
        part.to_multiset().add(rest) =~= whole.to_multiset(),
        all_moderate(whole),
    ensures
        all_moderate(part),
{
    assert forall|k: int| 0 <= k < part.len() implies moderate(#[trigger] part[k]) by {
        let x = part[k];
        assert(part.contains(x));
        assert(part.to_multiset().count(x) >= 1);
        assert(part.to_multiset().add(rest).count(x) >= 1);
        assert(whole.to_multiset().count(x) >= 1);
        assert(whole.contains(x));
        let m = choose|m: int| 0 <= m < whole.len() && whole[m] == x;
        assert(moderate(whole[m]));
    }
}

/// What must be true of an entity a cell evicts upward: it either left the
/// cell altogether, or it crosses the faces of a cell that is not the matter
/// root and so cannot absorb it.
pub open spec fn outsider_ok(e: Entity, scale: u32, area: Cube) -> bool {
    ||| classify(e.bounding_sphere, area) is CenterOutside
    ||| (classify(e.bounding_sphere, area) is PartlyOutside && scale < MAX_SCALE)
}

/// Every entity of `s` from position `from` on fits no single octant of
/// `area`: insertion never keeps an octant-fitting entity at a subdividing
/// cell.
pub open spec fn locals_non_fitting_from(s: Seq<Entity>, from: int, area: Cube) -> bool {
    forall|k: int|
        from <= k < s.len() ==> !(classify((#[trigger] s[k]).bounding_sphere, area) is Quadrant)
}

pub proof fn lemma_non_fitting_push(s: Seq<Entity>, e: Entity, from: int, area: Cube)
    requires
        0 <= from,
        locals_non_fitting_from(s, from, area),
        !(classify(e.bounding_sphere, area) is Quadrant),
    ensures
        locals_non_fitting_from(s.push(e), from, area),
{
    assert forall|k: int| from <= k < s.push(e).len() implies !(classify(
        (#[trigger] s.push(e)[k]).bounding_sphere,
        area,
    ) is Quadrant) by {
        if k < s.len() {
            assert(s.push(e)[k] == s[k]);
        } else {
            assert(k == s.len());
            assert(s.push(e)[s.len() as int] == e);
        }
    }
}

/// Every entity of `s` from position `from` on is settled at a cell of the
/// given scale and area.
pub open spec fn locals_settled_from(s: Seq<Entity>, from: int, scale: u32, area: Cube) -> bool {
    forall|k: int| from <= k < s.len() ==> local_settled(#[trigger] s[k], scale, area)
}

pub proof fn lemma_settled_push(s: Seq<Entity>, e: Entity, from: int, scale: u32, area: Cube)
    requires
        0 <= from,
        locals_settled_from(s, from, scale, area),
        local_settled(e, scale, area),
    ensures
        locals_settled_from(s.push(e), from, scale, area),
{
    assert forall|k: int| from <= k < s.push(e).len() implies local_settled(
        #[trigger] s.push(e)[k],
        scale,
        area,
    ) by {
        if k < s.len() {
            assert(s.push(e)[k] == s[k]);
        } else {
            assert(k == s.len());
            assert(s.push(e)[s.len() as int] == e);
        }
    }
}

/// Every entity of `s` from position `from` on was rightly evicted from a
/// cell of the given scale and area.
pub open spec fn outsiders_ok_from(s: Seq<Entity>, from: int, scale: u32, area: Cube) -> bool {
    forall|k: int| from <= k < s.len() ==> outsider_ok(#[trigger] s[k], scale, area)
}

pub proof fn lemma_outsiders_push(s: Seq<Entity>, e: Entity, from: int, scale: u32, area: Cube)
    requires
        0 <= from,
        outsiders_ok_from(s, from, scale, area),
        outsider_ok(e, scale, area),
    ensures
        outsiders_ok_from(s.push(e), from, scale, area),
{
    assert forall|k: int| from <= k < s.push(e).len() implies outsider_ok(
        #[trigger] s.push(e)[k],
        scale,
        area,
    ) by {
        if k < s.len() {
            assert(s.push(e)[k] == s[k]);
        } else {
            assert(k == s.len());
            assert(s.push(e)[s.len() as int] == e);
        }
    }
}

pub proof fn lemma_range_push(s: Seq<Entity>, e: Entity)
    requires
        ents_in_range(s),
        ent_in_range(e),
    ensures
        ents_in_range(s.push(e)),
{
    assert forall|k: int| 0 <= k < s.push(e).len() implies ent_in_range(#[trigger] s.push(e)[k]) by {
        if k < s.len() {
            assert(s.push(e)[k] == s[k]);
        } else {
            assert(k == s.len());
            assert(s.push(e)[s.len() as int] == e);
        }
    }
}

/// A child slot whose subtree, if present, has no empty descendants (the
/// subtree itself may still be empty, pending pruning).
pub open spec fn slot_no_empty(o: Option<Box<MatterTree>>) -> bool
    decreases o, 0int,
{
    match o {
        None => true,
        Some(c) => no_empty_subtrees(*c),
    }
}

/// What a relocation pass leaves in a child slot: a refreshed subtree, its
/// entities contained and none of its present descendants empty.
pub open spec fn slot_refreshed(o: Option<Box<MatterTree>>) -> bool
    decreases o, 0int,
{
    match o {
        None => true,
        Some(c) => contained(*c) && no_empty_subtrees(*c),
    }
}

/// Refreshing one child slot only moves entities between that child and the
/// pooled locals: the subtree total is unchanged.
pub proof fn lemma_slot_rebalance(
    locals_a: Seq<Entity>,
    ret_seq: Seq<Entity>,
    s_a: Seq<Option<Box<MatterTree>>>,
    s_b: Seq<Option<Box<MatterTree>>>,
    s_c: Seq<Option<Box<MatterTree>>>,
    child0: MatterTree,
    child1: MatterTree,
    total: Multiset<Entity>,
    merged: Seq<Entity>,
)
    requires
        locals_a.to_multiset().add(children_ents(s_a, 0).to_multiset()) =~= total,
        children_ents(s_a, 0).to_multiset() =~= children_ents(s_b, 0).to_multiset().add(
            tree_ents(child0).to_multiset(),
        ),
        children_ents(s_c, 0).to_multiset() =~= children_ents(s_b, 0).to_multiset().add(
            tree_ents(child1).to_multiset(),
        ),
        tree_ents(child1).to_multiset().add(ret_seq.to_multiset()) =~= tree_ents(
            child0,
        ).to_multiset(),
        merged == locals_a + ret_seq,
    ensures
        merged.to_multiset().add(children_ents(s_c, 0).to_multiset()) =~= total,
{
    vstd::seq_lib::lemma_multiset_commutative(locals_a, ret_seq);
    assert forall|w: Entity|
        merged.to_multiset().add(children_ents(s_c, 0).to_multiset()).count(w) == total.count(
            w,
        ) by {
        assert(locals_a.to_multiset().add(children_ents(s_a, 0).to_multiset()).count(w)
            == total.count(w));
        assert(children_ents(s_b, 0).to_multiset().add(tree_ents(child0).to_multiset()).count(w)
            == children_ents(s_a, 0).to_multiset().count(w));
        assert(children_ents(s_c, 0).to_multiset().count(w) == children_ents(
            s_b,
            0,
        ).to_multiset().add(tree_ents(child1).to_multiset()).count(w));
        assert(tree_ents(child1).to_multiset().add(ret_seq.to_multiset()).count(w) == tree_ents(
            child0,
        ).to_multiset().count(w));
        assert(locals_a.to_multiset().add(ret_seq.to_multiset()).count(w)
            == merged.to_multiset().count(w));
    }
}

/// A total split into two piles has the two piles' sizes.
pub proof fn lemma_ms_len_split(x: Multiset<Entity>, y: Multiset<Entity>, z: Multiset<Entity>)
    requires
        x =~= y.add(z),
    ensures
        x.len() == y.len() + z.len(),
{
    assert(y.add(z).len() == y.len() + z.len());
}

/// Routing one entity out of the fourth pile into one of the first three, in
/// the presence of an untouched fifth pile, keeps the total unchanged.
pub proof fn lemma_ms_route(
    a: Multiset<Entity>,
    b: Multiset<Entity>,
    c: Multiset<Entity>,
    d: Multiset<Entity>,
    rest: Multiset<Entity>,
    rhs: Multiset<Entity>,
    e: Entity,
)
    requires
        a.add(b).add(c).add(d).add(rest) =~= rhs,
        d.count(e) >= 1,
    ensures
        a.insert(e).add(b).add(c).add(d.remove(e)).add(rest) =~= rhs,
        a.add(b.insert(e)).add(c).add(d.remove(e)).add(rest) =~= rhs,
        a.add(b).add(c.insert(e)).add(d.remove(e)).add(rest) =~= rhs,
{
    assert forall|w: Entity|
        a.insert(e).add(b).add(c).add(d.remove(e)).add(rest).count(w) == rhs.count(w) && a.add(
            b.insert(e),
        ).add(c).add(d.remove(e)).add(rest).count(w) == rhs.count(w) && a.add(b).add(
        c.insert(e),
    ).add(d.remove(e)).add(rest).count(w) == rhs.count(w) by {
        assert(a.add(b).add(c).add(d).add(rest).count(w) == rhs.count(w));
    }
    assert(a.insert(e).add(b).add(c).add(d.remove(e)).add(rest) =~= rhs);
    assert(a.add(b.insert(e)).add(c).add(d.remove(e)).add(rest) =~= rhs);
    assert(a.add(b).add(c.insert(e)).add(d.remove(e)).add(rest) =~= rhs);
}

/// Equal totals with a common pile on both sides have equal remainders.
pub proof fn lemma_ms_cancel_common(x: Multiset<Entity>, y: Multiset<Entity>, b: Multiset<Entity>)
    requires
        x.add(b) =~= y.add(b),
    ensures
        x =~= y,
{
    assert forall|w: Entity| x.count(w) == y.count(w) by {
        assert(x.add(b).count(w) == y.add(b).count(w));
    }
}

/// If the totals agree after one side's pile also gained `e`, the other side
/// gained `e` too.
pub proof fn lemma_ms_insert_shift(
    x: Multiset<Entity>,
    y: Multiset<Entity>,
    b: Multiset<Entity>,
    e: Entity,
)
    requires
        x.add(b) =~= y.add(b.insert(e)),
    ensures
        x =~= y.insert(e),
{
    assert forall|w: Entity| x.count(w) == y.insert(e).count(w) by {
        assert(x.add(b).count(w) == y.add(b.insert(e)).count(w));
    }
}

/// Adding the same pile to both sides of a balance keeps it balanced.
pub proof fn lemma_ms_add_balance(
    l: Multiset<Entity>,
    b: Multiset<Entity>,
    l0: Multiset<Entity>,
    i0: Multiset<Entity>,
    ce: Multiset<Entity>,
)
    requires
        l.add(b) =~= l0.add(i0),
    ensures
        l.add(ce).add(b) =~= l0.add(ce).add(i0),
{
    assert forall|w: Entity| l.add(ce).add(b).count(w) == l0.add(ce).add(i0).count(w) by {
        assert(l.add(b).count(w) == l0.add(i0).count(w));
    }
}

/// Balanced totals have balanced sizes.
pub proof fn lemma_ms_len_balance(
    x: Multiset<Entity>,
    b: Multiset<Entity>,
    y: Multiset<Entity>,
    i0: Multiset<Entity>,
)
    requires
        x.add(b) =~= y.add(i0),
    ensures
        x.len() + b.len() == y.len() + i0.len(),
{
    assert(x.add(b).len() == x.len() + b.len());
    assert(y.add(i0).len() == y.len() + i0.len());
}

/// Moving one entity from the third pile into the second (or the first)
/// keeps the three piles' total unchanged.
pub proof fn lemma_ms_move(
    a: Multiset<Entity>,
    b: Multiset<Entity>,
    c: Multiset<Entity>,
    rhs: Multiset<Entity>,
    e: Entity,
)
    requires
        a.add(b).add(c) =~= rhs,
        c.count(e) >= 1,
    ensures
        a.add(b.insert(e)).add(c.remove(e)) =~= rhs,
        a.insert(e).add(b).add(c.remove(e)) =~= rhs,
{
}

/// A subtree's entities, as a multiset, split into locals and children.
pub proof fn lemma_tree_ents_ms(t: MatterTree)
    ensures
        tree_ents(t).to_multiset() =~= t.entities@.to_multiset().add(
            children_ents(t.sub_trees@, 0).to_multiset(),
        ),
{
    assert(tree_ents(t) == t.entities@ + children_ents(t.sub_trees@, 0));
    vstd::seq_lib::lemma_multiset_commutative(t.entities@, children_ents(t.sub_trees@, 0));
}

/// A row of empty buckets holds no entities.
pub proof fn lemma_buckets_all_empty(s: Seq<Vec<Entity>>, i: int)
    requires
        forall|j: int| 0 <= j < s.len() ==> (#[trigger] s[j])@.len() == 0,
    ensures
        buckets_ms(s, i) =~= Multiset::empty(),
    decreases s.len() - i,
{
    if 0 <= i < s.len() {
        lemma_buckets_all_empty(s, i + 1);
        assert(s[i]@.to_multiset().len() == 0);
    }
}

/// Two entity sequences of equal length related position by position.
pub open spec fn pointwise(
    r: spec_fn(Entity, Entity) -> bool,
    a: Seq<Entity>,
    b: Seq<Entity>,
) -> bool {
    &&& b.len() == a.len()
    &&& forall|k: int| 0 <= k < a.len() ==> r(#[trigger] a[k], b[k])
}

pub proof fn lemma_pointwise_concat(
    r: spec_fn(Entity, Entity) -> bool,
    a1: Seq<Entity>,
    b1: Seq<Entity>,
    a2: Seq<Entity>,
    b2: Seq<Entity>,
)
    requires
        pointwise(r, a1, b1),
        pointwise(r, a2, b2),
    ensures
        pointwise(r, a1 + a2, b1 + b2),
{
    assert forall|k: int| 0 <= k < (a1 + a2).len() implies r(#[trigger] (a1 + a2)[k], (b1 + b2)[k]) by {
        if k < a1.len() {
            assert((a1 + a2)[k] == a1[k]);
            assert((b1 + b2)[k] == b1[k]);
        } else {
            assert((a1 + a2)[k] == a2[k - a1.len()]);
            assert((b1 + b2)[k] == b2[k - a1.len()]);
        }
    }
}

/// Pointwise-related child slots give pointwise-related children rows.
pub proof fn lemma_children_pointwise(
    r: spec_fn(Entity, Entity) -> bool,
    s1: Seq<Option<Box<MatterTree>>>,
    s2: Seq<Option<Box<MatterTree>>>,
    i: int,
)
    requires
        s1.len() == 8,
        s2.len() == 8,
        forall|j: int|
            0 <= j < 8 ==> pointwise(r, opt_ents(#[trigger] s1[j]), opt_ents(s2[j])),
    ensures
        pointwise(r, children_ents(s1, i), children_ents(s2, i)),
    decreases 9 - i,
{
    if i < 0 || i >= 8 {
        assert(pointwise(r, Seq::<Entity>::empty(), Seq::<Entity>::empty()));
    } else {
        lemma_children_pointwise(r, s1, s2, i + 1);
        lemma_pointwise_concat(
            r,
            opt_ents(s1[i]),
            opt_ents(s2[i]),
            children_ents(s1, i + 1),
            children_ents(s2, i + 1),
        );
    }
}

/// What a movement pass leaves of a subtree: the same cells with the same
/// slots, each cell's entities replaced in place by their integrated values.
pub open spec fn movements_shape(t0: MatterTree, t1: MatterTree) -> bool
    decreases t0, 1int,
{
    &&& t1.scale == t0.scale
    &&& t1.area == t0.area
    &&& t1.sub_trees@.len() == t0.sub_trees@.len()
    &&& t1.entities@.len() == t0.entities@.len()
    &&& (forall|k: int|
        0 <= k < t0.entities@.len() ==> #[trigger] t1.entities@[k] == crate::entity::integrate(
            t0.entities@[k],
        ))
    &&& movements_shape_children(t0.sub_trees@, t1.sub_trees@, 0)
}

pub open spec fn movements_shape_opt(
    o0: Option<Box<MatterTree>>,
    o1: Option<Box<MatterTree>>,
) -> bool
    decreases o0, 0int,
{
    match o0 {
        None => o1 is None,
        Some(a) => match o1 {
            None => false,
            Some(b) => movements_shape(*a, *b),
        },
    }
}

pub open spec fn movements_shape_children(
    s0: Seq<Option<Box<MatterTree>>>,
    s1: Seq<Option<Box<MatterTree>>>,
    i: int,
) -> bool
    decreases s0, 9 - i,
{
    i < 0 || i >= 8 || i >= s0.len() || i >= s1.len() || {
        &&& movements_shape_opt(s0[i], s1[i])
        &&& movements_shape_children(s0, s1, i + 1)
    }
}

pub proof fn lemma_movements_shape_children_iff(
    s0: Seq<Option<Box<MatterTree>>>,
    s1: Seq<Option<Box<MatterTree>>>,
    i: int,
)
    requires
        s0.len() == 8,
        s1.len() == 8,
        0 <= i <= 8,
    ensures
        movements_shape_children(s0, s1, i) <==> (forall|j: int|
            i <= j < 8 ==> movements_shape_opt(#[trigger] s0[j], s1[j])),
    decreases 8 - i,
{
    if i < 8 {
        lemma_movements_shape_children_iff(s0, s1, i + 1);
    }
}

/// A movement shape gives the flattened, position-by-position integration.
pub proof fn lemma_movements_shape_pointwise(t0: MatterTree, t1: MatterTree)
    requires
        movements_shape(t0, t1),
    ensures
        pointwise(integrated_rel(), tree_ents(t0), tree_ents(t1)),
    decreases t0, 2int,
{
    lemma_movements_shape_children_pointwise(t0.sub_trees@, t1.sub_trees@, 0);
    lemma_pointwise_concat(
        integrated_rel(),
        t0.entities@,
        t1.entities@,
        children_ents(t0.sub_trees@, 0),
        children_ents(t1.sub_trees@, 0),
    );
    assert(tree_ents(t0) == t0.entities@ + children_ents(t0.sub_trees@, 0));
    assert(tree_ents(t1) == t1.entities@ + children_ents(t1.sub_trees@, 0));
    assert(pointwise(integrated_rel(), t0.entities@, t1.entities@));
}

pub proof fn lemma_movements_shape_children_pointwise(
    s0: Seq<Option<Box<MatterTree>>>,
    s1: Seq<Option<Box<MatterTree>>>,
    i: int,
)
    requires
        movements_shape_children(s0, s1, i),
        s0.len() == s1.len(),
    ensures
        pointwise(integrated_rel(), children_ents(s0, i), children_ents(s1, i)),
    decreases s0, 9 - i,
{
    if i < 0 || i >= 8 || i >= s0.len() {
        assert(pointwise(integrated_rel(), Seq::<Entity>::empty(), Seq::<Entity>::empty()));
    } else {
        lemma_movements_shape_children_pointwise(s0, s1, i + 1);
        assert(movements_shape_opt(s0[i], s1[i]));
        match (s0[i], s1[i]) {
            (Some(a), Some(b)) => {
                lemma_movements_shape_pointwise(*a, *b);
            },
            _ => {
                assert(pointwise(
                    integrated_rel(),
                    Seq::<Entity>::empty(),
                    Seq::<Entity>::empty(),
                ));
            },
        }
        lemma_pointwise_concat(
            integrated_rel(),
            opt_ents(s0[i]),
            opt_ents(s1[i]),
            children_ents(s0, i + 1),
            children_ents(s1, i + 1),
        );
    }
}

/// The relation integration imposes between an entity before and after the
/// movement pass.
pub open spec fn integrated_rel() -> spec_fn(Entity, Entity) -> bool {
    |a: Entity, b: Entity| b == crate::entity::integrate(a)
}

/// Everything about an entity except its collision tally.
pub open spec fn same_core(a: Entity, b: Entity) -> bool {
    &&& b.bounding_sphere == a.bounding_sphere
    &&& b.speed == a.speed
    &&& b.mass == a.mass
    &&& b.entity == a.entity
    &&& b.external_forces == a.external_forces
}

/// The relation a collision pass imposes: only collision tallies may change.
pub open spec fn same_core_rel() -> spec_fn(Entity, Entity) -> bool {
    |a: Entity, b: Entity| same_core(a, b)
}

pub proof fn lemma_pointwise_same_core_trans(a: Seq<Entity>, b: Seq<Entity>, c: Seq<Entity>)
    requires
        pointwise(same_core_rel(), a, b),
        pointwise(same_core_rel(), b, c),
    ensures
        pointwise(same_core_rel(), a, c),
{
    assert forall|k: int| 0 <= k < a.len() implies same_core_rel()(#[trigger] a[k], c[k]) by {
        assert(same_core_rel()(a[k], b[k]));
        assert(same_core_rel()(b[k], c[k]));
    }
}

/// What the movement pass needs of one entity: the arithmetic room to
/// integrate it, and an integrated position still in range.
pub open spec fn movement_ok(e: Entity) -> bool {
    &&& crate::entity::movement_fits(e)
    &&& ent_in_range(crate::entity::integrate(e))
}

/// The requirement of a movement pass over a whole entity sequence.
pub open spec fn movements_ok(s: Seq<Entity>) -> bool {
    forall|k: int| 0 <= k < s.len() ==> movement_ok(#[trigger] s[k])
}

/// An in-bounds entity of a child subtree satisfies any index-wise property
/// of the whole subtree's entities.
pub proof fn lemma_movements_ok_child(t: MatterTree, i: int)
    requires
        t.sub_trees@.len() == 8,
        0 <= i < 8,
        movements_ok(tree_ents(t)),
    ensures
        movements_ok(opt_ents(t.sub_trees@[i])),
{
    assert forall|k: int| 0 <= k < opt_ents(t.sub_trees@[i]).len() implies movement_ok(
        #[trigger] opt_ents(t.sub_trees@[i])[k],
    ) by {
        let x = opt_ents(t.sub_trees@[i])[k];
        assert(opt_ents(t.sub_trees@[i]).contains(x));
        lemma_tree_ents_member(t, x);
        assert(tree_ents(t).contains(x));
        let m = choose|m: int| 0 <= m < tree_ents(t).len() && tree_ents(t)[m] == x;
        assert(movement_ok(tree_ents(t)[m]));
    }
}

/// The neighbor offsets an entity's bounding sphere reaches into, past the
/// faces of `area`.
pub open spec fn touched_dirs_of(e: Entity, area: Cube) -> Seq<FineDirection> {
    crate::entity::touched_prefix(
        rel_x(e.bounding_sphere, area),
        rel_y(e.bounding_sphere, area),
        rel_z(e.bounding_sphere, area),
        e.bounding_sphere.radius as int,
        area.size as int,
        27,
    )
}

/// An entity with its controller state overwritten by this tick's inputs;
/// a voxel body is untouched.
pub open spec fn set_controls(e: Entity, forces: Vec3, drop_block: bool, drop_fixed: bool) -> Entity {
    match e.entity {
        crate::entity::EntityData::Player(_) => Entity {
            entity: crate::entity::EntityData::Player(
                crate::player::Player {
                    control_forces: forces,
                    drop_block,
                    drop_block_fixed: drop_fixed,
                },
            ),
            ..e
        },
        crate::entity::EntityData::Voxels(_) => e,
    }
}

/// The relation the input-collection phase imposes between an entity before
/// and after it.
pub open spec fn controls_rel(forces: Vec3, drop_block: bool, drop_fixed: bool) -> spec_fn(
    Entity,
    Entity,
) -> bool {
    |a: Entity, b: Entity| b == set_controls(a, forces, drop_block, drop_fixed)
}

/// Whether an entity's controller asked to drop a voxel body this tick.
pub open spec fn wants_spawn(e: Entity) -> bool {
    match e.entity {
        crate::entity::EntityData::Player(p) => p.drop_block,
        crate::entity::EntityData::Voxels(_) => false,
    }
}

/// How many of the first `i` entities ask to spawn.
pub open spec fn spawns_of(s: Seq<Entity>, i: int) -> nat
    decreases i,
{
    if i <= 0 {
        0
    } else {
        spawns_of(s, i - 1) + (if wants_spawn(s[i - 1]) {
            1nat
        } else {
            0nat
        })
    }
}

pub proof fn lemma_spawns_bound(s: Seq<Entity>, i: int)
    ensures
        spawns_of(s, i) <= (if i >= 0 {
            i
        } else {
            0
        }),
    decreases i,
{
    if i > 0 {
        lemma_spawns_bound(s, i - 1);
    }
}

/// How many spawns the whole subtree asks for.
pub open spec fn tree_spawns(t: MatterTree) -> nat
    decreases t, 1int,
{
    spawns_of(t.entities@, t.entities@.len() as int) + children_spawns(t.sub_trees@, 0)
}

pub open spec fn opt_spawns(o: Option<Box<MatterTree>>) -> nat
    decreases o, 0int,
{
    match o {
        None => 0,
        Some(c) => tree_spawns(*c),
    }
}

pub open spec fn children_spawns(s: Seq<Option<Box<MatterTree>>>, i: int) -> nat
    decreases s, 9 - i,
{
    if i < 0 || i >= 8 || i >= s.len() {
        0
    } else {
        opt_spawns(s[i]) + children_spawns(s, i + 1)
    }
}

/// What a spawned voxel body looks like: dropped one velocity step behind its
/// source, unit radius, massless, inert, and moving with the source.
pub open spec fn is_fresh_rock(r: Entity, src: Entity) -> bool {
    &&& r.bounding_sphere.center.x == src.bounding_sphere.center.x - src.speed.x
    &&& r.bounding_sphere.center.y == src.bounding_sphere.center.y - src.speed.y
    &&& r.bounding_sphere.center.z == src.bounding_sphere.center.z - src.speed.z
    &&& r.bounding_sphere.radius == 1
    &&& r.speed == src.speed
    &&& r.mass == 0
    &&& r.external_forces == (Vec3 { x: 0i64, y: 0i64, z: 0i64 })
    &&& r.collision_count == 0
    &&& r.entity is Voxels
}

/// An entity freshly spawned by some flagged controller of `src`.
pub open spec fn spawned_rock_of(r: Entity, src: Seq<Entity>) -> bool {
    exists|m: int| 0 <= m < src.len() && wants_spawn(#[trigger] src[m]) && is_fresh_rock(r, src[m])
}

/// What an action pass leaves of a subtree: the same cells with every
/// pre-existing entity kept in place, and each cell's list extended by one
/// fresh voxel body per flagged controller it holds.
pub open spec fn actions_shape(t0: MatterTree, t1: MatterTree) -> bool
    decreases t0, 1int,
{
    &&& t1.scale == t0.scale
    &&& t1.area == t0.area
    &&& t1.sub_trees@.len() == t0.sub_trees@.len()
    &&& t1.entities@.len() == t0.entities@.len() + spawns_of(
        t0.entities@,
        t0.entities@.len() as int,
    )
    &&& (forall|k: int|
        0 <= k < t0.entities@.len() ==> #[trigger] t1.entities@[k] == t0.entities@[k])
    &&& (forall|k: int|
        t0.entities@.len() <= k < t1.entities@.len() ==> spawned_rock_of(
            #[trigger] t1.entities@[k],
            t0.entities@,
        ))
    &&& actions_shape_children(t0.sub_trees@, t1.sub_trees@, 0)
}

pub open spec fn actions_shape_opt(
    o0: Option<Box<MatterTree>>,
    o1: Option<Box<MatterTree>>,
) -> bool
    decreases o0, 0int,
{
    match o0 {
        None => o1 is None,
        Some(a) => match o1 {
            None => false,
            Some(b) => actions_shape(*a, *b),
        },
    }
}

pub open spec fn actions_shape_children(
    s0: Seq<Option<Box<MatterTree>>>,
    s1: Seq<Option<Box<MatterTree>>>,
    i: int,
) -> bool
    decreases s0, 9 - i,
{
    i < 0 || i >= 8 || i >= s0.len() || i >= s1.len() || {
        &&& actions_shape_opt(s0[i], s1[i])
        &&& actions_shape_children(s0, s1, i + 1)
    }
}

pub proof fn lemma_actions_shape_children_iff(
    s0: Seq<Option<Box<MatterTree>>>,
    s1: Seq<Option<Box<MatterTree>>>,
    i: int,
)
    requires
        s0.len() == 8,
        s1.len() == 8,
        0 <= i <= 8,
    ensures
        actions_shape_children(s0, s1, i) <==> (forall|j: int|
            i <= j < 8 ==> actions_shape_opt(#[trigger] s0[j], s1[j])),
    decreases 8 - i,
{
    if i < 8 {
        lemma_actions_shape_children_iff(s0, s1, i + 1);
    }
}

/// The arithmetic room a spawn needs: the drop position stays in range.
pub open spec fn spawn_fits(e: Entity) -> bool {
    wants_spawn(e) ==> {
        &&& -0x4000_0000_0000_0000 + 2 * MAX_SIZE <= e.bounding_sphere.center.x - e.speed.x
            <= 0x4000_0000_0000_0000 - 2 * MAX_SIZE
        &&& -0x4000_0000_0000_0000 + 2 * MAX_SIZE <= e.bounding_sphere.center.y - e.speed.y
            <= 0x4000_0000_0000_0000 - 2 * MAX_SIZE
        &&& -0x4000_0000_0000_0000 + 2 * MAX_SIZE <= e.bounding_sphere.center.z - e.speed.z
            <= 0x4000_0000_0000_0000 - 2 * MAX_SIZE
    }
}

pub open spec fn spawns_ok(s: Seq<Entity>) -> bool {
    forall|k: int| 0 <= k < s.len() ==> spawn_fits(#[trigger] s[k])
}

pub proof fn lemma_spawns_ok_child(t: MatterTree, i: int)
    requires
        t.sub_trees@.len() == 8,
        0 <= i < 8,
        spawns_ok(tree_ents(t)),
    ensures
        spawns_ok(opt_ents(t.sub_trees@[i])),
{
    assert forall|k: int| 0 <= k < opt_ents(t.sub_trees@[i]).len() implies spawn_fits(
        #[trigger] opt_ents(t.sub_trees@[i])[k],
    ) by {
        let x = opt_ents(t.sub_trees@[i])[k];
        assert(opt_ents(t.sub_trees@[i]).contains(x));
        lemma_tree_ents_member(t, x);
        let m = choose|m: int| 0 <= m < tree_ents(t).len() && tree_ents(t)[m] == x;
        assert(spawn_fits(tree_ents(t)[m]));
    }
}

/// Run the drop-a-block action over one cell's local entities: every flagged
/// controller appends one fresh voxel body, visible from the next tick on.
pub fn run_actions_local(entities: &mut Vec<Entity>)
    requires
        ents_in_range(old(entities)@),
        spawns_ok(old(entities)@),
        old(entities)@.len() + spawns_of(old(entities)@, old(entities)@.len() as int)
            <= usize::MAX,
    ensures
        final(entities)@.len() == old(entities)@.len() + spawns_of(
            old(entities)@,
            old(entities)@.len() as int,
        ),
        forall|k: int| 0 <= k < old(entities)@.len() ==> #[trigger] final(entities)@[k] == old(
            entities,
        )@[k],
        forall|k: int|
            old(entities)@.len() <= k < final(entities)@.len() ==> spawned_rock_of(
                #[trigger] final(entities)@[k],
                old(entities)@,
            ),
        ents_in_range(final(entities)@),
        movements_ok(old(entities)@) ==> movements_ok(final(entities)@),
        all_tick_moderate(old(entities)@) ==> all_landing_moderate(final(entities)@),
{
    let ghost s0 = entities@;
    let n = entities.len();
    proof {
        lemma_spawns_bound(s0, n as int);
    }
    let mut k: usize = 0;
    while k < n
        invariant
            n == s0.len(),
            k <= n,
            ents_in_range(s0),
            spawns_ok(s0),
            s0.len() + spawns_of(s0, n as int) <= usize::MAX,
            spawns_of(s0, k as int) <= spawns_of(s0, n as int),
            entities@.len() == n + spawns_of(s0, k as int),
            forall|m: int| 0 <= m < n ==> #[trigger] entities@[m] == s0[m],
            forall|m: int|
                n <= m < entities@.len() ==> spawned_rock_of(#[trigger] entities@[m], s0),
            ents_in_range(entities@),
        decreases n - k,
    {
        proof {
            lemma_spawns_mono(s0, k as int + 1, n as int);
        }
        let flagged = match &entities[k].entity {
            crate::entity::EntityData::Player(player) => player.drop_block,
            crate::entity::EntityData::Voxels(_) => false,
        };
        let ghost pre = entities@;
        if flagged {
            proof {
                assert(spawn_fits(s0[k as int]));
                assert(wants_spawn(s0[k as int]));
            }
            let src_center = entities[k].bounding_sphere.center;
            let src_speed = entities[k].speed;
            let grid = crate::voxel_grid::VoxelGridSpace::new();
            let mut rock = Entity::new(
                crate::geometry::Sphere { center: src_center.sub(&src_speed), radius: 1 },
                crate::entity::EntityData::Voxels(Box::new(grid)),
            );
            rock.speed = src_speed;
            entities.push(rock);
            proof {
                assert(is_fresh_rock(entities@[pre.len() as int], s0[k as int]));
                assert forall|m: int| n <= m < entities@.len() implies spawned_rock_of(
                    #[trigger] entities@[m],
                    s0,
                ) by {
                    if m < pre.len() {
                        assert(entities@[m] == pre[m]);
                    } else {
                        assert(entities@[m] == entities@[pre.len() as int]);
                        assert(wants_spawn(s0[k as int]) && is_fresh_rock(
                            entities@[m],
                            s0[k as int],
                        ));
                    }
                }
                assert forall|m: int| 0 <= m < entities@.len() implies ent_in_range(
                    #[trigger] entities@[m],
                ) by {
                    if m < pre.len() {
                        assert(entities@[m] == pre[m]);
                    } else {
                        assert(entities@[m] == entities@[pre.len() as int]);
                    }
                }
            }
        }
        k = k + 1;
    }
    proof {
        if movements_ok(s0) {
            assert forall|m: int| 0 <= m < entities@.len() implies movement_ok(
                #[trigger] entities@[m],
            ) by {
                if m < s0.len() {
                    assert(entities@[m] == s0[m]);
                } else {
                    assert(spawned_rock_of(entities@[m], s0));
                    let j = choose|j: int|
                        0 <= j < s0.len() && wants_spawn(#[trigger] s0[j]) && is_fresh_rock(
                            entities@[m],
                            s0[j],
                        );
                    lemma_rock_movement_ok(entities@[m], s0[j]);
                }
            }
        }
        if all_tick_moderate(s0) {
            assert forall|m: int| 0 <= m < entities@.len() implies landing_moderate(
                #[trigger] entities@[m],
            ) by {
                if m < s0.len() {
                    assert(entities@[m] == s0[m]);
                    assert(tick_moderate(s0[m]));
                } else {
                    assert(spawned_rock_of(entities@[m], s0));
                    let j = choose|j: int|
                        0 <= j < s0.len() && wants_spawn(#[trigger] s0[j]) && is_fresh_rock(
                            entities@[m],
                            s0[j],
                        );
                    assert(tick_moderate(s0[j]));
                    lemma_rock_landing(entities@[m], s0[j]);
                }
            }
        }
    }
}

pub proof fn lemma_spawns_mono(s: Seq<Entity>, i: int, j: int)
    requires
        i <= j,
    ensures
        spawns_of(s, i) <= spawns_of(s, j),
    decreases j - i,
{
    if i < j {
        lemma_spawns_mono(s, i, j - 1);
    }
}

/// One slot's spawn demand is part of the row's.
pub proof fn lemma_children_spawns_prefix_bound(s: Seq<Option<Box<MatterTree>>>, i: int, j: int)
    requires
        s.len() == 8,
        0 <= j <= i < 8,
    ensures
        opt_spawns(s[i]) <= children_spawns(s, j),
    decreases i - j,
{
    if j < i {
        lemma_children_spawns_prefix_bound(s, i, j + 1);
    }
}

/// One slot's entities are part of the row's.
pub proof fn lemma_children_ents_prefix_bound(s: Seq<Option<Box<MatterTree>>>, i: int, j: int)
    requires
        s.len() == 8,
        0 <= j <= i < 8,
    ensures
        opt_ents(s[i]).len() <= children_ents(s, j).len(),
    decreases i - j,
{
    if j < i {
        lemma_children_ents_prefix_bound(s, i, j + 1);
    }
}

/// How many of the first `upto` entities, other than the one at `k`, overlap
/// the one at `k`.
pub open spec fn hits(s: Seq<Entity>, k: int, upto: int) -> nat
    decreases upto,
{
    if upto <= 0 {
        0
    } else {
        hits(s, k, upto - 1) + (if upto - 1 != k && crate::geometry::spheres_intersect(
            s[k].bounding_sphere,
            s[upto - 1].bounding_sphere,
        ) {
            1nat
        } else {
            0nat
        })
    }
}

/// How many of the first `upto` entities overlap the sphere `b`.
pub open spec fn hits_one(s: Seq<Entity>, b: crate::geometry::Sphere, upto: int) -> nat
    decreases upto,
{
    if upto <= 0 {
        0
    } else {
        hits_one(s, b, upto - 1) + (if crate::geometry::spheres_intersect(
            s[upto - 1].bounding_sphere,
            b,
        ) {
            1nat
        } else {
            0nat
        })
    }
}

pub proof fn lemma_hits_one_bound(s: Seq<Entity>, b: crate::geometry::Sphere, upto: int)
    ensures
        hits_one(s, b, upto) <= (if upto >= 0 {
            upto
        } else {
            0
        }),
    decreases upto,
{
    if upto > 0 {
        lemma_hits_one_bound(s, b, upto - 1);
    }
}

/// A collision tally raised by `d`, stopping at the top of its type.
pub open spec fn sat_addn(c: u64, d: nat) -> u64 {
    if c + d <= u64::MAX {
        (c + d) as u64
    } else {
        u64::MAX
    }
}

/// Saturating raises compose into one raise by the sum.
pub proof fn lemma_sat_addn_compose(c: u64, a: nat, b: nat)
    ensures
        sat_addn(sat_addn(c, a), b) == sat_addn(c, a + b),
{
}

/// The octant codes whose half-cubes an entity collides with, against a
/// cell's area.
pub open spec fn quads_of(e: Entity, area: Cube) -> Seq<u8> {
    crate::entity::collisioned_prefix(
        rel_x(e.bounding_sphere, area),
        rel_y(e.bounding_sphere, area),
        rel_z(e.bounding_sphere, area),
        e.bounding_sphere.radius as int,
        area.size as int,
        8,
    )
}

/// The overlapping partners an entity finds among the locals of the children
/// listed in the first `i` entries of its collided-octant list.
pub open spec fn listed_external_hits(
    e: Entity,
    t: MatterTree,
    quads: Seq<u8>,
    i: int,
) -> nat
    decreases i,
{
    if i <= 0 || i > quads.len() {
        0
    } else {
        listed_external_hits(e, t, quads, i - 1) + (if quads[i - 1] < 8 {
            match t.sub_trees@[quads[i - 1] as int] {
                Some(c) => hits_one(c.entities@, e.bounding_sphere, c.entities@.len() as int),
                None => 0,
            }
        } else {
            0nat
        })
    }
}

/// How many overlapping partners the collision pass considers for the entity
/// stored at position `k` of a cell: the cell's other locals, plus the
/// locals of every child whose grown half-cube contains its center.
pub open spec fn local_collision_delta(t: MatterTree, k: int) -> nat {
    hits(t.entities@, k, t.entities@.len() as int) + listed_external_hits(
        t.entities@[k],
        t,
        quads_of(t.entities@[k], t.area),
        quads_of(t.entities@[k], t.area).len() as int,
    )
}

/// What a collision pass leaves of a subtree: the same cells with the same
/// entities in place, no tally lowered, and nothing but tallies changed.
pub open spec fn collision_shape(t0: MatterTree, t1: MatterTree) -> bool
    decreases t0, 1int,
{
    &&& t1.scale == t0.scale
    &&& t1.area == t0.area
    &&& t1.sub_trees@.len() == t0.sub_trees@.len()
    &&& t1.entities@.len() == t0.entities@.len()
    &&& (forall|k: int|
        0 <= k < t0.entities@.len() ==> same_core(#[trigger] t0.entities@[k], t1.entities@[k])
            && t1.entities@[k].collision_count >= t0.entities@[k].collision_count)
    &&& collision_shape_children(t0.sub_trees@, t1.sub_trees@, 0)
}

pub open spec fn collision_shape_opt(o0: Option<Box<MatterTree>>, o1: Option<Box<MatterTree>>) -> bool
    decreases o0, 0int,
{
    match o0 {
        None => o1 is None,
        Some(a) => match o1 {
            None => false,
            Some(b) => collision_shape(*a, *b),
        },
    }
}

pub open spec fn collision_shape_children(
    s0: Seq<Option<Box<MatterTree>>>,
    s1: Seq<Option<Box<MatterTree>>>,
    i: int,
) -> bool
    decreases s0, 9 - i,
{
    i < 0 || i >= 8 || i >= s0.len() || i >= s1.len() || {
        &&& collision_shape_opt(s0[i], s1[i])
        &&& collision_shape_children(s0, s1, i + 1)
    }
}

pub proof fn lemma_collision_shape_children_iff(
    s0: Seq<Option<Box<MatterTree>>>,
    s1: Seq<Option<Box<MatterTree>>>,
    i: int,
)
    requires
        s0.len() == 8,
        s1.len() == 8,
        0 <= i <= 8,
    ensures
        collision_shape_children(s0, s1, i) <==> (forall|j: int|
            i <= j < 8 ==> collision_shape_opt(#[trigger] s0[j], s1[j])),
    decreases 8 - i,
{
    if i < 8 {
        lemma_collision_shape_children_iff(s0, s1, i + 1);
    }
}

/// An untouched subtree is collision-shaped with itself.
pub proof fn lemma_collision_shape_refl(t: MatterTree)
    ensures
        collision_shape(t, t),
    decreases t, 1int,
{
    lemma_collision_shape_children_refl(t.sub_trees@, 0);
}

pub proof fn lemma_collision_shape_children_refl(s: Seq<Option<Box<MatterTree>>>, i: int)
    ensures
        collision_shape_children(s, s, i),
    decreases s, 9 - i,
{
    if !(i < 0 || i >= 8 || i >= s.len()) {
        lemma_collision_shape_children_refl(s, i + 1);
        match s[i] {
            Some(a) => {
                lemma_collision_shape_refl(*a);
            },
            None => {},
        }
        assert(collision_shape_opt(s[i], s[i]));
    }
}

/// Collision shaping composes.
pub proof fn lemma_collision_shape_trans(t0: MatterTree, t1: MatterTree, t2: MatterTree)
    requires
        collision_shape(t0, t1),
        collision_shape(t1, t2),
    ensures
        collision_shape(t0, t2),
    decreases t0, 2int,
{
    lemma_collision_shape_children_trans(
        t0.sub_trees@,
        t1.sub_trees@,
        t2.sub_trees@,
        0,
    );
    assert forall|k: int| 0 <= k < t0.entities@.len() implies same_core(
        #[trigger] t0.entities@[k],
        t2.entities@[k],
    ) && t2.entities@[k].collision_count >= t0.entities@[k].collision_count by {
        assert(same_core(t0.entities@[k], t1.entities@[k]));
        assert(same_core(t1.entities@[k], t2.entities@[k]));
    }
}

pub proof fn lemma_collision_shape_children_trans(
    s0: Seq<Option<Box<MatterTree>>>,
    s1: Seq<Option<Box<MatterTree>>>,
    s2: Seq<Option<Box<MatterTree>>>,
    i: int,
)
    requires
        collision_shape_children(s0, s1, i),
        collision_shape_children(s1, s2, i),
        s0.len() == s1.len(),
        s1.len() == s2.len(),
    ensures
        collision_shape_children(s0, s2, i),
    decreases s0, 9 - i,
{
    if !(i < 0 || i >= 8 || i >= s0.len()) {
        lemma_collision_shape_children_trans(s0, s1, s2, i + 1);
        assert(collision_shape_opt(s0[i], s1[i]));
        assert(collision_shape_opt(s1[i], s2[i]));
        match (s0[i], s1[i], s2[i]) {
            (Some(a), Some(b), Some(c)) => {
                lemma_collision_shape_trans(*a, *b, *c);
            },
            _ => {},
        }
        assert(collision_shape_opt(s0[i], s2[i]));
    }
}

/// Collision shaping of a subtree gives the flattened pointwise relation.
pub proof fn lemma_collision_shape_pointwise(t0: MatterTree, t1: MatterTree)
    requires
        collision_shape(t0, t1),
        t0.sub_trees@.len() == 8,
    ensures
        pointwise(same_core_rel(), tree_ents(t0), tree_ents(t1)),
    decreases t0, 2int,
{
    lemma_collision_shape_children_iff(t0.sub_trees@, t1.sub_trees@, 0);
    assert forall|j: int| 0 <= j < 8 implies pointwise(
        same_core_rel(),
        opt_ents(#[trigger] t0.sub_trees@[j]),
        opt_ents(t1.sub_trees@[j]),
    ) by {
        match (t0.sub_trees@[j], t1.sub_trees@[j]) {
            (Some(a), Some(b)) => {
                assert(collision_shape_opt(t0.sub_trees@[j], t1.sub_trees@[j]));
                if a.sub_trees@.len() == 8 {
                    lemma_collision_shape_pointwise(*a, *b);
                } else {
                    lemma_collision_shape_pointwise_loose(*a, *b);
                }
            },
            _ => {
                assert(pointwise(
                    same_core_rel(),
                    Seq::<Entity>::empty(),
                    Seq::<Entity>::empty(),
                ));
            },
        }
    }
    lemma_children_pointwise(same_core_rel(), t0.sub_trees@, t1.sub_trees@, 0);
    lemma_pointwise_concat(
        same_core_rel(),
        t0.entities@,
        t1.entities@,
        children_ents(t0.sub_trees@, 0),
        children_ents(t1.sub_trees@, 0),
    );
    assert(tree_ents(t0) == t0.entities@ + children_ents(t0.sub_trees@, 0));
    assert(tree_ents(t1) == t1.entities@ + children_ents(t1.sub_trees@, 0));
}

/// The same, for a row of unknown width: rows other than eight slots hold no
/// flattened entities.
pub proof fn lemma_collision_shape_pointwise_loose(t0: MatterTree, t1: MatterTree)
    requires
        collision_shape(t0, t1),
    ensures
        pointwise(same_core_rel(), tree_ents(t0), tree_ents(t1)),
    decreases t0, 2int,
{
    lemma_collision_shape_children_pointwise(t0.sub_trees@, t1.sub_trees@, 0);
    lemma_pointwise_concat(
        same_core_rel(),
        t0.entities@,
        t1.entities@,
        children_ents(t0.sub_trees@, 0),
        children_ents(t1.sub_trees@, 0),
    );
    assert(tree_ents(t0) == t0.entities@ + children_ents(t0.sub_trees@, 0));
    assert(tree_ents(t1) == t1.entities@ + children_ents(t1.sub_trees@, 0));
}

pub proof fn lemma_collision_shape_children_pointwise(
    s0: Seq<Option<Box<MatterTree>>>,
    s1: Seq<Option<Box<MatterTree>>>,
    i: int,
)
    requires
        collision_shape_children(s0, s1, i),
        s0.len() == s1.len(),
    ensures
        pointwise(same_core_rel(), children_ents(s0, i), children_ents(s1, i)),
    decreases s0, 9 - i,
{
    if i < 0 || i >= 8 || i >= s0.len() {
        assert(pointwise(same_core_rel(), Seq::<Entity>::empty(), Seq::<Entity>::empty()));
    } else {
        lemma_collision_shape_children_pointwise(s0, s1, i + 1);
        assert(collision_shape_opt(s0[i], s1[i]));
        match (s0[i], s1[i]) {
            (Some(a), Some(b)) => {
                lemma_collision_shape_pointwise_loose(*a, *b);
            },
            _ => {
                assert(pointwise(
                    same_core_rel(),
                    Seq::<Entity>::empty(),
                    Seq::<Entity>::empty(),
                ));
            },
        }
        lemma_pointwise_concat(
            same_core_rel(),
            opt_ents(s0[i]),
            opt_ents(s1[i]),
            children_ents(s0, i + 1),
            children_ents(s1, i + 1),
        );
    }
}

/// Collision shaping keeps structural emptiness, so it keeps the no-empty
/// invariant.
pub proof fn lemma_collision_shape_no_empty(t0: MatterTree, t1: MatterTree)
    requires
        collision_shape(t0, t1),
        no_empty_subtrees(t0),
        t0.wf(),
    ensures
        no_empty_subtrees(t1),
        t1.spec_is_empty() == t0.spec_is_empty(),
    decreases t0, 2int,
{
    lemma_collision_shape_children_iff(t0.sub_trees@, t1.sub_trees@, 0);
    lemma_no_empty_children_iff(t0.sub_trees@, 0);
    lemma_wf_children_iff(t0.sub_trees@, t0.scale, t0.area, 0);
    assert forall|j: int| 0 <= j < 8 implies no_empty_opt(#[trigger] t1.sub_trees@[j]) by {
        assert(collision_shape_opt(t0.sub_trees@[j], t1.sub_trees@[j]));
        assert(no_empty_opt(t0.sub_trees@[j]));
        assert(child_ok(t0.sub_trees@[j], t0.scale, t0.area, j));
        match (t0.sub_trees@[j], t1.sub_trees@[j]) {
            (Some(a), Some(b)) => {
                lemma_collision_shape_no_empty(*a, *b);
            },
            _ => {},
        }
    }
    lemma_no_empty_children_iff(t1.sub_trees@, 0);
    assert forall|j: int|
        0 <= j < 8 implies ((#[trigger] t1.sub_trees@[j]) is None <==> t0.sub_trees@[j]
        is None) by {
        assert(collision_shape_opt(t0.sub_trees@[j], t1.sub_trees@[j]));
    }
}

/// A collision pass keeps containment: classification reads only spheres,
/// which the pass never changes.
pub proof fn lemma_collision_shape_contained(t0: MatterTree, t1: MatterTree)
    requires
        collision_shape(t0, t1),
        contained(t0),
        t0.wf(),
    ensures
        contained(t1),
    decreases t0, 2int,
{
    lemma_collision_shape_children_iff(t0.sub_trees@, t1.sub_trees@, 0);
    lemma_contained_children_iff(t0.sub_trees@, 0);
    lemma_wf_children_iff(t0.sub_trees@, t0.scale, t0.area, 0);
    assert forall|k: int| 0 <= k < t1.entities@.len() implies local_ok(
        #[trigger] t1.entities@[k],
        t1.scale,
        t1.area,
    ) by {
        assert(same_core(t0.entities@[k], t1.entities@[k]));
        assert(local_ok(t0.entities@[k], t0.scale, t0.area));
    }
    assert forall|j: int| 0 <= j < 8 implies contained_opt(#[trigger] t1.sub_trees@[j]) by {
        assert(collision_shape_opt(t0.sub_trees@[j], t1.sub_trees@[j]));
        assert(contained_opt(t0.sub_trees@[j]));
        assert(child_ok(t0.sub_trees@[j], t0.scale, t0.area, j));
        match (t0.sub_trees@[j], t1.sub_trees@[j]) {
            (Some(a), Some(b)) => {
                lemma_collision_shape_contained(*a, *b);
            },
            _ => {},
        }
    }
    lemma_contained_children_iff(t1.sub_trees@, 0);
}

/// Overlap counts depend only on spheres, which a collision pass never
/// changes.
pub proof fn lemma_hits_one_same_spheres(
    s1: Seq<Entity>,
    s2: Seq<Entity>,
    b: crate::geometry::Sphere,
    upto: int,
)
    requires
        s2.len() == s1.len(),
        upto <= s1.len(),
        forall|m: int|
            0 <= m < s1.len() ==> (#[trigger] s2[m]).bounding_sphere == s1[m].bounding_sphere,
    ensures
        hits_one(s1, b, upto) == hits_one(s2, b, upto),
    decreases upto,
{
    if upto > 0 {
        lemma_hits_one_same_spheres(s1, s2, b, upto - 1);
    }
}

/// Apply collisions between every unordered pair of the given entities: each
/// entity's tally grows by the number of others whose bounding sphere
/// overlaps its own; nothing else changes. Each unordered pair is considered
/// exactly once.
pub fn apply_pairwise_collisions(entities: &mut Vec<Entity>)
    requires
        ents_in_range(old(entities)@),
    ensures
        final(entities)@.len() == old(entities)@.len(),
        forall|k: int|
            0 <= k < old(entities)@.len() ==> same_core(
                #[trigger] old(entities)@[k],
                final(entities)@[k],
            ),
        forall|k: int|
            0 <= k < old(entities)@.len() ==> (#[trigger] final(entities)@[k]).collision_count
                == sat_addn(
                old(entities)@[k].collision_count,
                hits(old(entities)@, k, old(entities)@.len() as int),
            ),
{
    let ghost s0 = entities@;
    let n = entities.len();
    let mut deltas: Vec<u64> = Vec::new();
    let mut k: usize = 0;
    while k < n
        invariant
            n == s0.len(),
            entities@ == s0,
            ents_in_range(s0),
            k <= n,
            deltas@.len() == k,
            n <= usize::MAX,
            forall|m: int| 0 <= m < k ==> #[trigger] deltas@[m] == hits(s0, m, n as int),
        decreases n - k,
    {
        let mut d: u64 = 0;
        let mut j: usize = 0;
        while j < n
            invariant
                n == s0.len(),
                entities@ == s0,
                ents_in_range(s0),
                k < n,
                j <= n,
                d == hits(s0, k as int, j as int),
                d <= j,
            decreases n - j,
        {
            if j != k {
                proof {
                    assert(ent_in_range(s0[k as int]));
                    assert(ent_in_range(s0[j as int]));
                }
                if entities[k].check_collision(&entities[j]) {
                    d = d + 1;
                }
            }
            j = j + 1;
        }
        deltas.push(d);
        k = k + 1;
    }
    let mut k: usize = 0;
    while k < n
        invariant
            n == s0.len(),
            entities@.len() == n,
            k <= n,
            deltas@.len() == n,
            forall|m: int| 0 <= m < n ==> #[trigger] deltas@[m] == hits(s0, m, n as int),
            forall|m: int| k <= m < n ==> #[trigger] entities@[m] == s0[m],
            forall|m: int|
                0 <= m < k ==> same_core(#[trigger] s0[m], entities@[m])
                    && entities@[m].collision_count == sat_addn(
                    s0[m].collision_count,
                    hits(s0, m, n as int),
                ),
        decreases n - k,
    {
        let ghost pre = entities@;
        let c = entities[k].collision_count;
        let d = deltas[k];
        let nc = if c <= u64::MAX - d {
            c + d
        } else {
            u64::MAX
        };
        entities[k].collision_count = nc;
        proof {
            assert(entities@ =~= pre.update(k as int, entities@[k as int]));
            assert(same_core(s0[k as int], entities@[k as int]));
        }
        k = k + 1;
    }
}

/// A spawned voxel body lands back at its source's position, so a moderate
/// source makes a landing-moderate rock.
pub proof fn lemma_rock_landing(r: Entity, src: Entity)
    requires
        is_fresh_rock(r, src),
        moderate(src),
    ensures
        landing_moderate(r),
{
}

pub proof fn lemma_landing_concat(a: Seq<Entity>, b: Seq<Entity>)
    requires
        all_landing_moderate(a),
        all_landing_moderate(b),
    ensures
        all_landing_moderate(a + b),
{
    assert forall|k: int| 0 <= k < (a + b).len() implies landing_moderate(
        #[trigger] (a + b)[k],
    ) by {
        if k < a.len() {
            assert((a + b)[k] == a[k]);
        } else {
            assert((a + b)[k] == b[k - a.len()]);
        }
    }
}

pub proof fn lemma_landing_children(s: Seq<Option<Box<MatterTree>>>, i: int)
    requires
        s.len() == 8,
        forall|j: int| 0 <= j < 8 ==> all_landing_moderate(opt_ents(#[trigger] s[j])),
    ensures
        all_landing_moderate(children_ents(s, i)),
    decreases 9 - i,
{
    if i < 0 || i >= 8 {
        assert(all_landing_moderate(Seq::<Entity>::empty()));
    } else {
        lemma_landing_children(s, i + 1);
        lemma_landing_concat(opt_ents(s[i]), children_ents(s, i + 1));
    }
}

pub proof fn lemma_tick_moderate_child(t: MatterTree, i: int)
    requires
        t.sub_trees@.len() == 8,
        0 <= i < 8,
        all_tick_moderate(tree_ents(t)),
    ensures
        all_tick_moderate(opt_ents(t.sub_trees@[i])),
{
    assert forall|k: int| 0 <= k < opt_ents(t.sub_trees@[i]).len() implies tick_moderate(
        #[trigger] opt_ents(t.sub_trees@[i])[k],
    ) by {
        let x = opt_ents(t.sub_trees@[i])[k];
        assert(opt_ents(t.sub_trees@[i]).contains(x));
        lemma_tree_ents_member(t, x);
        let m = choose|m: int| 0 <= m < tree_ents(t).len() && tree_ents(t)[m] == x;
        assert(tick_moderate(tree_ents(t)[m]));
    }
}

pub proof fn lemma_movements_ok_concat(a: Seq<Entity>, b: Seq<Entity>)
    requires
        movements_ok(a),
        movements_ok(b),
    ensures
        movements_ok(a + b),
{
    assert forall|k: int| 0 <= k < (a + b).len() implies movement_ok(#[trigger] (a + b)[k]) by {
        if k < a.len() {
            assert((a + b)[k] == a[k]);
        } else {
            assert((a + b)[k] == b[k - a.len()]);
        }
    }
}

pub proof fn lemma_movements_ok_children(s: Seq<Option<Box<MatterTree>>>, i: int)
    requires
        s.len() == 8,
        forall|j: int| 0 <= j < 8 ==> movements_ok(opt_ents(#[trigger] s[j])),
    ensures
        movements_ok(children_ents(s, i)),
    decreases 9 - i,
{
    if i < 0 || i >= 8 {
        assert(movements_ok(Seq::<Entity>::empty()));
    } else {
        lemma_movements_ok_children(s, i + 1);
        lemma_movements_ok_concat(opt_ents(s[i]), children_ents(s, i + 1));
    }
}

/// A spawned voxel body is always ready for the next movement pass: it moves
/// back to its source's position, carries no forces, and has no mass.
pub proof fn lemma_rock_movement_ok(r: Entity, src: Entity)
    requires
        is_fresh_rock(r, src),
        ent_in_range(src),
    ensures
        movement_ok(r),
{
    assert(crate::entity::control_force(r) == Vec3 { x: 0i64, y: 0i64, z: 0i64 });
    assert(r.bounding_sphere.center.x + r.speed.x == src.bounding_sphere.center.x);
    assert(r.bounding_sphere.center.y + r.speed.y == src.bounding_sphere.center.y);
    assert(r.bounding_sphere.center.z + r.speed.z == src.bounding_sphere.center.z);
}

/// A structurally empty tree holds no entities.
pub proof fn lemma_empty_tree_no_ents(t: MatterTree)
    requires
        t.sub_trees@.len() == 8,
        t.spec_is_empty(),
    ensures
        tree_ents(t).len() == 0,
{
    lemma_children_ents_all_none(t.sub_trees@, 0);
}

impl MatterTree {
    /// A fresh, empty child cell for the `quadrant`-octant of this cell.
    fn new_sub_tree(&self, quadrant: usize) -> (r: MatterTree)
        requires
            self.wf(),
            self.scale >= 1,
            quadrant < 8,
        ensures
            r.wf(),
            r.scale == self.scale - 1,
            r.area == child_area_of(self.area, quadrant as int),
            r.spec_is_empty(),
            tree_ents(r).len() == 0,
            contained(r),
            no_empty_subtrees(r),
    {
        proof {
            lemma_scale_size_even(self.scale as nat);
            lemma_scale_size_bounds(self.scale as nat);
            lemma_scale_size_bounds((self.scale - 1) as nat);
        }
        let size = div_i64(self.area.size, 2);
        let origin = Vec3 {
            x: self.area.origin.x + (if quadrant >= 4 { size } else { 0 }),
            y: self.area.origin.y + (if quadrant % 4 >= 2 { size } else { 0 }),
            z: self.area.origin.z + (if quadrant % 2 == 1 { size } else { 0 }),
        };
        let r = Self::new_tree(self.scale - 1, Cube { origin, size });
        proof {
            lemma_wf_children_iff(r.sub_trees@, r.scale, r.area, 0);
            lemma_children_ents_all_none(r.sub_trees@, 0);
            lemma_contained_children_iff(r.sub_trees@, 0);
            lemma_no_empty_children_iff(r.sub_trees@, 0);
        }
        r
    }

    /// Store a batch of entities in this subtree. A cell keeping at most one
    /// entity, or a bottom cell, stores them locally; otherwise each entity
    /// wholly inside one octant descends into that child, and the rest stay
    /// here.
    #[verifier::rlimit(100)]
    #[verifier::spinoff_prover]
    pub fn add_entities(&mut self, entities: Vec<Entity>)
        requires
            old(self).wf(),
            ents_in_range(entities@),
            tree_ents(*old(self)).len() + entities@.len() <= usize::MAX,
        ensures
            final(self).wf(),
            final(self).scale == old(self).scale,
            final(self).area == old(self).area,
            tree_ents(*final(self)).to_multiset() =~= tree_ents(*old(self)).to_multiset().add(
                entities@.to_multiset(),
            ),
            (contained(*old(self)) && all_admissible(
                entities@,
                old(self).scale,
                old(self).area,
            )) ==> contained(*final(self)),
            no_empty_subtrees(*old(self)) ==> no_empty_subtrees(*final(self)),
            entities@.len() > 0 ==> !final(self).spec_is_empty(),
            !old(self).spec_is_empty() ==> !final(self).spec_is_empty(),
            (old(self).entities@.len() + entities@.len() <= 1 || old(self).scale == 0)
                ==> (final(self).entities@ == old(self).entities@ + entities@
                && final(self).sub_trees@ == old(self).sub_trees@),
            !(old(self).entities@.len() + entities@.len() <= 1 || old(self).scale == 0)
                ==> ((forall|k: int|
                0 <= k < old(self).entities@.len()
                    ==> #[trigger] final(self).entities@[k] == old(self).entities@[k])
                && locals_non_fitting_from(
                final(self).entities@,
                old(self).entities@.len() as int,
                old(self).area,
            )),
        decreases old(self).scale, 1int,
    {
        let ghost t0 = *old(self);
        let ghost input = entities@;
        let mut entities = entities;
        proof {
            assert(tree_ents(t0) == t0.entities@ + children_ents(t0.sub_trees@, 0));
            assert(t0.entities@.len() <= tree_ents(t0).len());
        }
        if self.entities.len() + entities.len() <= 1 || self.scale == 0 {
            let ghost locals0 = self.entities@;
            self.entities.append(&mut entities);
            proof {
                assert(self.entities@ == locals0 + input);
                assert(tree_ents(*self) == (locals0 + input) + children_ents(t0.sub_trees@, 0));
                assert(tree_ents(*self).to_multiset() =~= locals0.to_multiset().add(
                    input.to_multiset(),
                ).add(children_ents(t0.sub_trees@, 0).to_multiset()));
                assert(tree_ents(t0).to_multiset() =~= locals0.to_multiset().add(
                    children_ents(t0.sub_trees@, 0).to_multiset(),
                ));
                assert(tree_ents(*self).to_multiset() =~= tree_ents(t0).to_multiset().add(
                    input.to_multiset(),
                ));
                assert forall|k: int| 0 <= k < self.entities@.len() implies ent_in_range(
                    #[trigger] self.entities@[k],
                ) by {
                    if k < locals0.len() {
                        assert(self.entities@[k] == locals0[k]);
                    } else {
                        assert(self.entities@[k] == input[k - locals0.len()]);
                    }
                }
                if contained(t0) && all_admissible(input, t0.scale, t0.area) {
                    assert forall|k: int| 0 <= k < self.entities@.len() implies local_ok(
                        #[trigger] self.entities@[k],
                        self.scale,
                        self.area,
                    ) by {
                        if k < locals0.len() {
                            assert(self.entities@[k] == locals0[k]);
                            assert(local_ok(locals0[k], t0.scale, t0.area));
                        } else {
                            assert(self.entities@[k] == input[k - locals0.len()]);
                            assert(admissible(input[k - locals0.len()], t0.scale, t0.area));
                        }
                    }
                }
            }
        } else {
            let ghost locals0 = self.entities@;
            let ghost old_len = self.entities@.len() as int;
            let mut buckets: Vec<Vec<Entity>> = Vec::new();
            let mut bi: usize = 0;
            while bi < 8
                invariant
                    bi <= 8,
                    buckets@.len() == bi,
                    forall|j: int| 0 <= j < bi ==> (#[trigger] buckets@[j])@.len() == 0,
                decreases 8 - bi,
            {
                buckets.push(Vec::new());
                bi = bi + 1;
            }
            proof {
                lemma_buckets_all_empty(buckets@, 0);
            }
            while entities.len() > 0
                invariant
                    t0 == *old(self),
                    self.wf(),
                    self.scale == t0.scale,
                    self.area == t0.area,
                    self.scale >= 1,
                    self.sub_trees@ == t0.sub_trees@,
                    t0.area.size == scale_size(t0.scale as nat),
                    in_root_bounds(t0.area),
                    entities@ == input.subrange(0, entities@.len() as int),
                    entities@.len() <= input.len(),
                    ents_in_range(input),
                    buckets@.len() == 8,
                    self.entities@.to_multiset().add(buckets_ms(buckets@, 0)).add(
                        entities@.to_multiset(),
                    ) =~= locals0.to_multiset().add(input.to_multiset()),
                    forall|j: int|
                        0 <= j < 8 ==> all_fit_quadrant((#[trigger] buckets@[j])@, t0.area, j),
                    forall|j: int| 0 <= j < 8 ==> ents_in_range((#[trigger] buckets@[j])@),
                    0 <= old_len <= self.entities@.len(),
                    forall|k: int| 0 <= k < old_len ==> self.entities@[k] == locals0[k],
                    locals_non_fitting_from(self.entities@, old_len, t0.area),
                    (contained(t0) && all_admissible(input, t0.scale, t0.area))
                        ==> locals_ok_from(self.entities@, old_len, t0.scale, t0.area),
                decreases entities@.len(),
            {
                let ghost pre = entities@;
                let ghost locals_pre = self.entities@;
                let e = entities.pop().unwrap();
                proof {
                    assert(pre.drop_last() =~= pre.remove(pre.len() - 1));
                    assert(entities@ == pre.remove(pre.len() - 1));
                    assert(entities@.to_multiset() == pre.remove(pre.len() - 1).to_multiset());
                    assert(entities@.to_multiset() =~= pre.to_multiset().remove(e));
                    assert(pre.contains(e));
                    assert(pre.to_multiset().count(e) >= 1);
                    assert(entities@ =~= input.subrange(0, entities@.len() as int));
                    assert(e == input[pre.len() - 1]);
                    assert(ent_in_range(e));
                    crate::geometry::lemma_div_trunc_bounds(self.area.size as int, 2);
                }
                let part = e.get_containing_cell_part(&self.area);
                match part {
                    CellPart::Quadrant(q) => {
                        let qi = q.to_index();
                        proof {
                            crate::geometry::lemma_quadrant_from_own_idx(q);
                        }
                        let ghost bpre = buckets@;
                        buckets[qi].push(e);
                        proof {
                            assert(buckets@ =~= bpre.update(qi as int, buckets@[qi as int]));
                            assert(buckets@[qi as int]@ =~= bpre[qi as int]@.push(e));
                            assert(buckets@[qi as int]@.to_multiset() =~= bpre[qi as int]@
                                .to_multiset().insert(e));
                            lemma_buckets_ms_update(bpre, qi as int, buckets@[qi as int], 0);
                            lemma_ms_insert_shift(
                                buckets_ms(buckets@, 0),
                                buckets_ms(bpre, 0),
                                bpre[qi as int]@.to_multiset(),
                                e,
                            );
                            assert(buckets_ms(buckets@, 0) =~= buckets_ms(bpre, 0).insert(e));
                            lemma_ms_move(
                                locals_pre.to_multiset(),
                                buckets_ms(bpre, 0),
                                pre.to_multiset(),
                                locals0.to_multiset().add(input.to_multiset()),
                                e,
                            );
                            assert(self.entities@.to_multiset().add(buckets_ms(buckets@, 0)).add(
                                entities@.to_multiset(),
                            ) =~= locals0.to_multiset().add(input.to_multiset()));
                            assert forall|j: int| 0 <= j < 8 implies all_fit_quadrant(
                                (#[trigger] buckets@[j])@,
                                t0.area,
                                j,
                            ) by {
                                if j != qi {
                                    assert(buckets@[j] == bpre[j]);
                                } else {
                                    assert forall|k: int|
                                        0 <= k < buckets@[j]@.len() implies classify(
                                        (#[trigger] buckets@[j]@[k]).bounding_sphere,
                                        t0.area,
                                    ) == CellPart::Quadrant(Quadrant::spec_from_idx(j)) by {
                                        if k < bpre[j]@.len() {
                                            assert(buckets@[j]@[k] == bpre[j]@[k]);
                                        } else {
                                            assert(buckets@[j]@[k] == e);
                                        }
                                    }
                                }
                            }
                            assert forall|j: int| 0 <= j < 8 implies ents_in_range(
                                (#[trigger] buckets@[j])@,
                            ) by {
                                if j != qi {
                                    assert(buckets@[j] == bpre[j]);
                                } else {
                                    assert forall|k: int|
                                        0 <= k < buckets@[j]@.len() implies ent_in_range(
                                        #[trigger] buckets@[j]@[k],
                                    ) by {
                                        if k < bpre[j]@.len() {
                                            assert(buckets@[j]@[k] == bpre[j]@[k]);
                                        } else {
                                            assert(buckets@[j]@[k] == e);
                                        }
                                    }
                                }
                            }
                        }
                    },
                    _ => {
                        self.entities.push(e);
                        proof {
                            assert(self.entities@.to_multiset() =~= locals_pre.to_multiset().insert(
                                e,
                            ));
                            lemma_ms_move(
                                locals_pre.to_multiset(),
                                buckets_ms(buckets@, 0),
                                pre.to_multiset(),
                                locals0.to_multiset().add(input.to_multiset()),
                                e,
                            );
                            assert(self.entities@.to_multiset().add(buckets_ms(buckets@, 0)).add(
                                entities@.to_multiset(),
                            ) =~= locals0.to_multiset().add(input.to_multiset()));
                            assert(self.entities@ == locals_pre.push(e));
                            lemma_non_fitting_push(locals_pre, e, old_len, t0.area);
                            if contained(t0) && all_admissible(input, t0.scale, t0.area) {
                                assert(admissible(e, t0.scale, t0.area));
                                assert(local_ok(e, t0.scale, t0.area));
                                lemma_locals_ok_push(locals_pre, e, old_len, t0.scale, t0.area);
                            }
                        }
                    },
                }
            }
            proof {
                assert(entities@.to_multiset() =~= Multiset::empty());
                assert(self.entities@.to_multiset().add(buckets_ms(buckets@, 0)) =~= locals0
                    .to_multiset().add(input.to_multiset()));
                lemma_tree_ents_ms(*self);
                lemma_tree_ents_ms(t0);
                assert(tree_ents(*self).to_multiset() =~= self.entities@.to_multiset().add(
                    children_ents(t0.sub_trees@, 0).to_multiset(),
                ));
                assert(tree_ents(t0).to_multiset() =~= locals0.to_multiset().add(
                    children_ents(t0.sub_trees@, 0).to_multiset(),
                ));
                lemma_ms_add_balance(
                    self.entities@.to_multiset(),
                    buckets_ms(buckets@, 0),
                    locals0.to_multiset(),
                    input.to_multiset(),
                    children_ents(t0.sub_trees@, 0).to_multiset(),
                );
                assert(self.entities@.to_multiset().add(
                    children_ents(t0.sub_trees@, 0).to_multiset(),
                ).add(buckets_ms(buckets@, 0)) =~= locals0.to_multiset().add(
                    children_ents(t0.sub_trees@, 0).to_multiset(),
                ).add(input.to_multiset()));
                assert(tree_ents(*self).to_multiset().add(buckets_ms(buckets@, 0)) =~= tree_ents(
                    t0,
                ).to_multiset().add(input.to_multiset()));
                lemma_ms_len_balance(
                    tree_ents(*self).to_multiset(),
                    buckets_ms(buckets@, 0),
                    tree_ents(t0).to_multiset(),
                    input.to_multiset(),
                );
                assert(tree_ents(*self).to_multiset().len() == tree_ents(*self).len());
                assert(tree_ents(t0).to_multiset().len() == tree_ents(t0).len());
                assert(input.to_multiset().len() == input.len());
            }
            let ghost hypo = contained(t0) && all_admissible(input, t0.scale, t0.area);
            proof {
                if hypo {
                    assert(locals_ok_from(self.entities@, old_len, t0.scale, t0.area));
                    assert forall|k: int| 0 <= k < self.entities@.len() implies local_ok(
                        #[trigger] self.entities@[k],
                        self.scale,
                        self.area,
                    ) by {
                        if k < old_len {
                            assert(self.entities@[k] == locals0[k]);
                            assert(local_ok(locals0[k], t0.scale, t0.area));
                        } else {
                            assert(local_ok(self.entities@[k], t0.scale, t0.area));
                        }
                    }
                    assert(contained(*self));
                }
            }
            while buckets.len() > 0
                invariant
                    t0 == *old(self),
                    self.wf(),
                    self.scale == t0.scale,
                    self.area == t0.area,
                    self.scale >= 1,
                    buckets@.len() <= 8,
                    forall|j: int|
                        0 <= j < buckets@.len() ==> all_fit_quadrant(
                            (#[trigger] buckets@[j])@,
                            t0.area,
                            j,
                        ),
                    forall|j: int|
                        0 <= j < buckets@.len() ==> ents_in_range((#[trigger] buckets@[j])@),
                    tree_ents(*self).to_multiset().add(buckets_ms(buckets@, 0)) =~= tree_ents(
                        t0,
                    ).to_multiset().add(input.to_multiset()),
                    hypo ==> contained(*self),
                    no_empty_subtrees(t0) ==> no_empty_subtrees(*self),
                    0 <= old_len <= self.entities@.len(),
                    forall|k: int| 0 <= k < old_len ==> #[trigger] self.entities@[k] == locals0[k],
                    locals_non_fitting_from(self.entities@, old_len, t0.area),
                    tree_ents(t0).len() + input.len() <= usize::MAX,
                    !t0.spec_is_empty() ==> !self.spec_is_empty(),
                    input.len() > 0 ==> self.entities@.len() > 0 || buckets_ms(buckets@, 0).len()
                        > 0 || !self.spec_is_empty(),
                decreases buckets@.len(),
            {
                let ghost bpre = buckets@;
                let qi = buckets.len() - 1;
                let bucket = buckets.pop().unwrap();
                proof {
                    lemma_buckets_ms_pop(bpre, 0);
                    assert(buckets@ =~= bpre.drop_last());
                    assert(bucket@ == bpre[qi as int]@);
                    assert(buckets_ms(bpre, 0) =~= buckets_ms(buckets@, 0).add(
                        bucket@.to_multiset(),
                    ));
                }
                if bucket.len() > 0 {
                    proof {
                        assert(tree_ents(*self).to_multiset().len() == tree_ents(*self).len());
                        assert(tree_ents(t0).to_multiset().len() == tree_ents(t0).len());
                        assert(input.to_multiset().len() == input.len());
                        assert(bucket@.to_multiset().len() == bucket@.len());
                        lemma_ms_len_balance(
                            tree_ents(*self).to_multiset(),
                            buckets_ms(bpre, 0),
                            tree_ents(t0).to_multiset(),
                            input.to_multiset(),
                        );
                        assert(buckets_ms(bpre, 0).len() == buckets_ms(buckets@, 0).len()
                            + bucket@.to_multiset().len());
                        assert(tree_ents(*self).len() + bucket@.len() <= tree_ents(t0).len()
                            + input.len());
                    }
                    let ghost pre_move = *self;
                    self.move_entities_to_quadrant(bucket, qi);
                    proof {
                        if hypo {
                            assert(all_fit_quadrant(bucket@, t0.area, qi as int));
                            assert(contained(*self));
                        }
                    }
                } else {
                    proof {
                        assert(bucket@.to_multiset() =~= Multiset::empty());
                    }
                }
            }
            proof {
                assert(buckets_ms(buckets@, 0) =~= Multiset::empty());
                assert(tree_ents(*self).to_multiset() =~= tree_ents(t0).to_multiset().add(
                    input.to_multiset(),
                ));
                if input.len() > 0 {
                    assert(self.entities@.len() > 0 || !self.spec_is_empty());
                }
            }
        }
    }

    /// The per-tick relocation pass. Children are refreshed first and
    /// everything they evict is pooled with this cell's own entities; the
    /// pool is then classified against this cell: entities that left it, or
    /// that cross its faces below the matter root, are returned upward;
    /// entities wholly inside one octant settle into that child; the rest
    /// stay here. Children left empty are pruned.
    #[verifier::rlimit(100)]
    #[verifier::spinoff_prover]
    pub fn refresh(&mut self) -> (outsiders: Vec<Entity>)
        requires
            old(self).wf(),
            tree_ents(*old(self)).len() <= usize::MAX,
        ensures
            final(self).wf(),
            final(self).scale == old(self).scale,
            final(self).area == old(self).area,
            tree_ents(*final(self)).to_multiset().add(outsiders@.to_multiset()) =~= tree_ents(
                *old(self),
            ).to_multiset(),
            contained(*final(self)),
            no_empty_subtrees(*final(self)),
            final(self).scale > 0 ==> locals_settled_from(
                final(self).entities@,
                0,
                final(self).scale,
                final(self).area,
            ),
            locals_ok_from(final(self).entities@, 0, final(self).scale, final(self).area),
            outsiders_ok_from(outsiders@, 0, old(self).scale, old(self).area),
            ents_in_range(outsiders@),
            all_moderate(tree_ents(*old(self))) ==> all_moderate(outsiders@),
        decreases old(self).scale, 2int,
    {
        let ghost t0 = *old(self);
        proof {
            lemma_wf_children_iff(t0.sub_trees@, t0.scale, t0.area, 0);
            lemma_tree_ents_ms(t0);
        }
        // refresh each child and pool what it evicts with this cell's own
        // entities
        let mut i: usize = 0;
        while i < 8
            invariant
                t0 == *old(self),
                t0.wf(),
                tree_ents(t0).len() <= usize::MAX,
                i <= 8,
                self.wf(),
                self.scale == t0.scale,
                self.area == t0.area,
                forall|j: int| 0 <= j < i ==> slot_refreshed(#[trigger] self.sub_trees@[j]),
                forall|j: int| i <= j < 8 ==> self.sub_trees@[j] == t0.sub_trees@[j],
                tree_ents(*self).to_multiset() =~= tree_ents(t0).to_multiset(),
            decreases 8 - i,
        {
            proof {
                lemma_wf_children_iff(self.sub_trees@, self.scale, self.area, 0);
            }
            if self.sub_trees[i].is_some() {
                let ghost t_pre = *self;
                let ghost s_a = self.sub_trees@;
                let ghost locals_a = self.entities@;
                let mut child_opt = self.sub_trees[i].take();
                let mut child = child_opt.unwrap();
                let ghost child0 = *child;
                let ghost s_b = self.sub_trees@;
                proof {
                    assert(child_ok(s_a[i as int], t0.scale, t0.area, i as int));
                    assert(child0.wf());
                    assert(s_b =~= s_a.update(i as int, None));
                    lemma_children_ents_update(s_a, i as int, None, 0);
                    assert(opt_ents(s_a[i as int]) == tree_ents(child0));
                    assert(children_ents(s_a, 0).to_multiset() =~= children_ents(
                        s_b,
                        0,
                    ).to_multiset().add(tree_ents(child0).to_multiset()));
                    // the child's total is bounded by the whole tree's
                    lemma_tree_ents_ms(t_pre);
                    assert(tree_ents(child0).to_multiset().len() == tree_ents(child0).len());
                    assert(tree_ents(t0).to_multiset().len() == tree_ents(t0).len());
                    lemma_ms_len_split(
                        tree_ents(t_pre).to_multiset(),
                        locals_a.to_multiset(),
                        children_ents(s_a, 0).to_multiset(),
                    );
                    lemma_ms_len_split(
                        children_ents(s_a, 0).to_multiset(),
                        children_ents(s_b, 0).to_multiset(),
                        tree_ents(child0).to_multiset(),
                    );
                    assert(tree_ents(t_pre).to_multiset().len() == tree_ents(
                        t0,
                    ).to_multiset().len());
                    assert(tree_ents(child0).len() <= tree_ents(t0).len());
                }
                let mut ret = child.refresh();
                self.sub_trees[i] = Some(child);
                let ghost child1 = *self.sub_trees@[i as int]->Some_0;
                let ghost s_c = self.sub_trees@;
                let ghost ret_seq = ret@;
                proof {
                    assert(s_c =~= s_b.update(i as int, s_c[i as int]));
                    lemma_children_ents_update(s_b, i as int, s_c[i as int], 0);
                    assert(opt_ents(s_b[i as int]).to_multiset() =~= Multiset::empty());
                    assert(children_ents(s_c, 0).to_multiset() =~= children_ents(
                        s_b,
                        0,
                    ).to_multiset().add(tree_ents(child1).to_multiset()));
                }
                self.entities.append(&mut ret);
                proof {
                    assert(self.entities@ == locals_a + ret_seq);
                    lemma_tree_ents_ms(*self);
                    lemma_tree_ents_ms(t_pre);
                    lemma_slot_rebalance(
                        locals_a,
                        ret_seq,
                        s_a,
                        s_b,
                        s_c,
                        child0,
                        child1,
                        tree_ents(t0).to_multiset(),
                        self.entities@,
                    );
                    assert(tree_ents(*self).to_multiset() =~= tree_ents(t0).to_multiset());
                    // the reassembled row is well-formed and refreshed where visited
                    assert forall|j: int| 0 <= j < 8 implies child_ok(
                        #[trigger] s_c[j],
                        self.scale,
                        self.area,
                        j,
                    ) by {
                        if j != i {
                            assert(s_c[j] == s_a[j]);
                        }
                    }
                    lemma_wf_children_iff(s_c, self.scale, self.area, 0);
                    assert forall|k: int| 0 <= k < self.entities@.len() implies ent_in_range(
                        #[trigger] self.entities@[k],
                    ) by {
                        if k < locals_a.len() {
                            assert(self.entities@[k] == locals_a[k]);
                        } else {
                            assert(self.entities@[k] == ret_seq[k - locals_a.len()]);
                        }
                    }
                    assert forall|j: int| 0 <= j < i + 1 implies slot_refreshed(
                        #[trigger] self.sub_trees@[j],
                    ) by {
                        if j != i {
                            assert(s_c[j] == s_a[j]);
                        } else {
                            assert(slot_refreshed(s_c[j]));
                        }
                    }
                }
            }
            i = i + 1;
        }
        // route the pooled entities: stay, leave upward, or settle into an
        // octant
        let mut outsiders: Vec<Entity> = Vec::new();
        let mut insiders: Vec<Vec<Entity>> = Vec::new();
        let mut bi: usize = 0;
        while bi < 8
            invariant
                bi <= 8,
                insiders@.len() == bi,
                forall|j: int| 0 <= j < bi ==> (#[trigger] insiders@[j])@.len() == 0,
            decreases 8 - bi,
        {
            insiders.push(Vec::new());
            bi = bi + 1;
        }
        proof {
            lemma_buckets_all_empty(insiders@, 0);
        }
        let mut stays: Vec<Entity> = Vec::new();
        let ghost pool = self.entities@;
        while self.entities.len() > 0
            invariant
                t0 == *old(self),
                t0.wf(),
                tree_ents(t0).len() <= usize::MAX,
                self.wf(),
                self.scale == t0.scale,
                self.area == t0.area,
                forall|j: int| 0 <= j < 8 ==> slot_refreshed(#[trigger] self.sub_trees@[j]),
                insiders@.len() == 8,
                ents_in_range(stays@),
                ents_in_range(outsiders@),
                t0.scale > 0 ==> locals_settled_from(stays@, 0, t0.scale, t0.area),
                locals_ok_from(stays@, 0, t0.scale, t0.area),
                outsiders_ok_from(outsiders@, 0, t0.scale, t0.area),
                t0.scale == 0 ==> (forall|j: int|
                    0 <= j < 8 ==> (#[trigger] insiders@[j])@.len() == 0),
                forall|j: int|
                    0 <= j < 8 ==> all_fit_quadrant((#[trigger] insiders@[j])@, t0.area, j),
                forall|j: int| 0 <= j < 8 ==> ents_in_range((#[trigger] insiders@[j])@),
                stays@.to_multiset().add(outsiders@.to_multiset()).add(
                    buckets_ms(insiders@, 0),
                ).add(self.entities@.to_multiset()).add(
                    children_ents(self.sub_trees@, 0).to_multiset(),
                ) =~= tree_ents(t0).to_multiset(),
            decreases self.entities@.len(),
        {
            let ghost pending_pre = self.entities@;
            let ghost stays_pre = stays@;
            let ghost outs_pre = outsiders@;
            let e = self.entities.pop().unwrap();
            proof {
                assert(pending_pre.drop_last() =~= pending_pre.remove(pending_pre.len() - 1));
                assert(self.entities@ == pending_pre.remove(pending_pre.len() - 1));
                assert(self.entities@.to_multiset() == pending_pre.remove(
                    pending_pre.len() - 1,
                ).to_multiset());
                assert(self.entities@.to_multiset() =~= pending_pre.to_multiset().remove(e));
                assert(pending_pre.contains(e));
                assert(pending_pre.to_multiset().count(e) >= 1);
                assert(ent_in_range(e));
                crate::geometry::lemma_div_trunc_bounds(self.area.size as int, 2);
            }
            let part = e.get_containing_cell_part(&self.area);
            let ghost a = stays_pre.to_multiset();
            let ghost b = outs_pre.to_multiset();
            let ghost c = buckets_ms(insiders@, 0);
            let ghost d = pending_pre.to_multiset();
            let ghost rest = children_ents(self.sub_trees@, 0).to_multiset();
            proof {
                lemma_ms_route(a, b, c, d, rest, tree_ents(t0).to_multiset(), e);
            }
            match part {
                CellPart::MultiQuadrant => {
                    stays.push(e);
                    proof {
                        lemma_range_push(stays_pre, e);
                        if t0.scale > 0 {
                            lemma_settled_push(stays_pre, e, 0, t0.scale, t0.area);
                        }
                        lemma_locals_ok_push(stays_pre, e, 0, t0.scale, t0.area);
                    }
                },
                CellPart::PartlyOutside => {
                    if self.scale == MAX_SCALE {
                        stays.push(e);
                        proof {
                            lemma_range_push(stays_pre, e);
                            if t0.scale > 0 {
                                lemma_settled_push(stays_pre, e, 0, t0.scale, t0.area);
                            }
                            lemma_locals_ok_push(stays_pre, e, 0, t0.scale, t0.area);
                        }
                    } else {
                        outsiders.push(e);
                        proof {
                            lemma_range_push(outs_pre, e);
                            lemma_outsiders_push(outs_pre, e, 0, t0.scale, t0.area);
                        }
                    }
                },
                CellPart::CenterOutside => {
                    outsiders.push(e);
                    proof {
                        lemma_range_push(outs_pre, e);
                        lemma_outsiders_push(outs_pre, e, 0, t0.scale, t0.area);
                    }
                },
                CellPart::Quadrant(q) => {
                    if self.scale > 0 {
                        let qi = q.to_index();
                        proof {
                            crate::geometry::lemma_quadrant_from_own_idx(q);
                        }
                        let ghost bpre = insiders@;
                        insiders[qi].push(e);
                        proof {
                            assert(insiders@ =~= bpre.update(qi as int, insiders@[qi as int]));
                            assert(insiders@[qi as int]@ =~= bpre[qi as int]@.push(e));
                            assert(insiders@[qi as int]@.to_multiset() =~= bpre[qi as int]@
                                .to_multiset().insert(e));
                            lemma_buckets_ms_update(bpre, qi as int, insiders@[qi as int], 0);
                            lemma_ms_insert_shift(
                                buckets_ms(insiders@, 0),
                                buckets_ms(bpre, 0),
                                bpre[qi as int]@.to_multiset(),
                                e,
                            );
                            assert(buckets_ms(insiders@, 0) =~= buckets_ms(bpre, 0).insert(e));
                            assert forall|j: int| 0 <= j < 8 implies all_fit_quadrant(
                                (#[trigger] insiders@[j])@,
                                t0.area,
                                j,
                            ) by {
                                if j != qi {
                                    assert(insiders@[j] == bpre[j]);
                                } else {
                                    assert forall|k: int|
                                        0 <= k < insiders@[j]@.len() implies classify(
                                        (#[trigger] insiders@[j]@[k]).bounding_sphere,
                                        t0.area,
                                    ) == CellPart::Quadrant(Quadrant::spec_from_idx(j)) by {
                                        if k < bpre[j]@.len() {
                                            assert(insiders@[j]@[k] == bpre[j]@[k]);
                                        } else {
                                            assert(insiders@[j]@[k] == e);
                                        }
                                    }
                                }
                            }
                            assert forall|j: int| 0 <= j < 8 implies ents_in_range(
                                (#[trigger] insiders@[j])@,
                            ) by {
                                if j != qi {
                                    assert(insiders@[j] == bpre[j]);
                                } else {
                                    assert forall|k: int|
                                        0 <= k < insiders@[j]@.len() implies ent_in_range(
                                        #[trigger] insiders@[j]@[k],
                                    ) by {
                                        if k < bpre[j]@.len() {
                                            assert(insiders@[j]@[k] == bpre[j]@[k]);
                                        } else {
                                            assert(insiders@[j]@[k] == e);
                                        }
                                    }
                                }
                            }
                        }
                    } else {
                        stays.push(e);
                        proof {
                            lemma_range_push(stays_pre, e);
                            lemma_locals_ok_push(stays_pre, e, 0, t0.scale, t0.area);
                        }
                    }
                },
            }
        }
        let ghost stays_g = stays@;
        self.entities.append(&mut stays);
        proof {
            assert(self.entities@ =~= stays_g);
            lemma_tree_ents_ms(*self);
            assert forall|j: int| 0 <= j < 8 implies contained_opt(
                #[trigger] self.sub_trees@[j],
            ) by {
                assert(slot_refreshed(self.sub_trees@[j]));
            }
            lemma_contained_children_iff(self.sub_trees@, 0);
            assert forall|k: int| 0 <= k < self.entities@.len() implies local_ok(
                #[trigger] self.entities@[k],
                self.scale,
                self.area,
            ) by {
                assert(self.entities@[k] == stays_g[k]);
            }
            assert(contained(*self));
            if t0.scale > 0 {
                assert forall|k: int| 0 <= k < self.entities@.len() implies local_settled(
                    #[trigger] self.entities@[k],
                    t0.scale,
                    t0.area,
                ) by {
                    assert(self.entities@[k] == stays_g[k]);
                }
            }
            assert forall|j: int| 0 <= j < 8 implies slot_no_empty(
                #[trigger] self.sub_trees@[j],
            ) by {
                assert(slot_refreshed(self.sub_trees@[j]));
            }
        }
        // settle the per-octant batches into their children
        while insiders.len() > 0
            invariant
                t0 == *old(self),
                t0.wf(),
                tree_ents(t0).len() <= usize::MAX,
                self.wf(),
                self.scale == t0.scale,
                self.area == t0.area,
                insiders@.len() <= 8,
                t0.scale == 0 ==> (forall|j: int|
                    0 <= j < insiders@.len() ==> (#[trigger] insiders@[j])@.len() == 0),
                forall|j: int|
                    0 <= j < insiders@.len() ==> all_fit_quadrant(
                        (#[trigger] insiders@[j])@,
                        t0.area,
                        j,
                    ),
                forall|j: int| 0 <= j < insiders@.len() ==> ents_in_range((#[trigger] insiders@[j])@),
                forall|j: int| 0 <= j < 8 ==> slot_no_empty(#[trigger] self.sub_trees@[j]),
                contained(*self),
                t0.scale > 0 ==> locals_settled_from(self.entities@, 0, t0.scale, t0.area),
                locals_ok_from(self.entities@, 0, t0.scale, t0.area),
                ents_in_range(outsiders@),
                outsiders_ok_from(outsiders@, 0, t0.scale, t0.area),
                tree_ents(*self).to_multiset().add(outsiders@.to_multiset()).add(
                    buckets_ms(insiders@, 0),
                ) =~= tree_ents(t0).to_multiset(),
            decreases insiders@.len(),
        {
            let ghost bpre = insiders@;
            let qi = insiders.len() - 1;
            let bucket = insiders.pop().unwrap();
            proof {
                lemma_buckets_ms_pop(bpre, 0);
                assert(insiders@ =~= bpre.drop_last());
                assert(bucket@ == bpre[qi as int]@);
                assert(buckets_ms(bpre, 0) =~= buckets_ms(insiders@, 0).add(bucket@.to_multiset()));
            }
            if bucket.len() > 0 {
                proof {
                    if t0.scale == 0 {
                        assert(bpre[qi as int]@.len() == 0);
                        assert(false);
                    }
                    assert(self.scale > 0);
                    assert(tree_ents(*self).to_multiset().len() == tree_ents(*self).len());
                    assert(tree_ents(t0).to_multiset().len() == tree_ents(t0).len());
                    assert(bucket@.to_multiset().len() == bucket@.len());
                    lemma_ms_len_balance(
                        tree_ents(*self).to_multiset().add(outsiders@.to_multiset()),
                        buckets_ms(bpre, 0),
                        tree_ents(t0).to_multiset(),
                        Multiset::empty(),
                    );
                    assert(tree_ents(*self).to_multiset().add(outsiders@.to_multiset()).len()
                        == tree_ents(*self).to_multiset().len() + outsiders@.to_multiset().len());
                    assert(buckets_ms(bpre, 0).len() == buckets_ms(insiders@, 0).len()
                        + bucket@.to_multiset().len());
                    assert(tree_ents(*self).len() + bucket@.len() <= tree_ents(t0).len());
                }
                let ghost pre_move = *self;
                self.move_entities_to_quadrant(bucket, qi);
                proof {
                    assert(all_fit_quadrant(bucket@, t0.area, qi as int));
                    assert(contained(*self));
                    assert forall|j: int| 0 <= j < 8 implies slot_no_empty(
                        #[trigger] self.sub_trees@[j],
                    ) by {
                        if j != qi {
                            assert(self.sub_trees@[j] == pre_move.sub_trees@[j]);
                            assert(slot_no_empty(pre_move.sub_trees@[j]));
                        }
                    }
                }
            } else {
                proof {
                    assert(bucket@.to_multiset() =~= Multiset::empty());
                }
            }
        }
        // prune children that ended the pass empty
        let ghost locals_final = self.entities@;
        let ghost outs_final = outsiders@;
        let mut pi: usize = 0;
        while pi < 8
            invariant
                t0 == *old(self),
                pi <= 8,
                self.wf(),
                self.scale == t0.scale,
                self.area == t0.area,
                self.entities@ == locals_final,
                outsiders@ == outs_final,
                ents_in_range(outsiders@),
                outsiders_ok_from(outsiders@, 0, t0.scale, t0.area),
                t0.scale > 0 ==> locals_settled_from(self.entities@, 0, t0.scale, t0.area),
                locals_ok_from(self.entities@, 0, t0.scale, t0.area),
                contained(*self),
                forall|j: int| 0 <= j < 8 ==> slot_no_empty(#[trigger] self.sub_trees@[j]),
                forall|j: int| 0 <= j < pi ==> no_empty_opt(#[trigger] self.sub_trees@[j]),
                tree_ents(*self).to_multiset().add(outsiders@.to_multiset()) =~= tree_ents(
                    t0,
                ).to_multiset(),
            decreases 8 - pi,
        {
            proof {
                lemma_wf_children_iff(self.sub_trees@, self.scale, self.area, 0);
                lemma_contained_children_iff(self.sub_trees@, 0);
            }
            let mut need_prune = false;
            match &self.sub_trees[pi] {
                Some(c) => {
                    if c.is_empty() {
                        need_prune = true;
                    }
                },
                None => {},
            }
            if need_prune {
                let ghost s_p = self.sub_trees@;
                let ghost cg = *s_p[pi as int]->Some_0;
                self.sub_trees[pi] = None;
                proof {
                    assert(self.sub_trees@ =~= s_p.update(pi as int, None));
                    lemma_children_ents_update(s_p, pi as int, None, 0);
                    lemma_empty_tree_no_ents(cg);
                    assert(opt_ents(s_p[pi as int]) == tree_ents(cg));
                    assert(tree_ents(cg).to_multiset().len() == 0);
                    assert(opt_ents(s_p[pi as int]).to_multiset() =~= Multiset::empty());
                    assert(opt_ents(None::<Box<MatterTree>>).to_multiset() =~= Multiset::empty());
                    lemma_ms_cancel_common(
                        children_ents(self.sub_trees@, 0).to_multiset(),
                        children_ents(s_p, 0).to_multiset(),
                        Multiset::empty(),
                    );
                    assert(children_ents(self.sub_trees@, 0).to_multiset() =~= children_ents(
                        s_p,
                        0,
                    ).to_multiset());
                    lemma_tree_ents_ms(*self);
                    assert(tree_ents(*self).to_multiset() =~= self.entities@.to_multiset().add(
                        children_ents(s_p, 0).to_multiset(),
                    ));
                    assert forall|j: int| 0 <= j < 8 implies child_ok(
                        #[trigger] self.sub_trees@[j],
                        self.scale,
                        self.area,
                        j,
                    ) by {
                        if j != pi {
                            assert(self.sub_trees@[j] == s_p[j]);
                        }
                    }
                    lemma_wf_children_iff(self.sub_trees@, self.scale, self.area, 0);
                    assert forall|j: int| 0 <= j < 8 implies contained_opt(
                        #[trigger] self.sub_trees@[j],
                    ) by {
                        if j != pi {
                            assert(self.sub_trees@[j] == s_p[j]);
                        }
                    }
                    lemma_contained_children_iff(self.sub_trees@, 0);
                    assert forall|j: int| 0 <= j < pi + 1 implies no_empty_opt(
                        #[trigger] self.sub_trees@[j],
                    ) by {
                        if j != pi {
                            assert(self.sub_trees@[j] == s_p[j]);
                        }
                    }
                }
            } else {
                proof {
                    assert forall|j: int| 0 <= j < pi + 1 implies no_empty_opt(
                        #[trigger] self.sub_trees@[j],
                    ) by {
                        if j == pi {
                            match self.sub_trees@[j] {
                                None => {},
                                Some(c) => {
                                    assert(!c.spec_is_empty());
                                    assert(no_empty_subtrees(*c));
                                },
                            }
                        }
                    }
                }
            }
            pi = pi + 1;
        }
        proof {
            lemma_no_empty_children_iff(self.sub_trees@, 0);
            if all_moderate(tree_ents(t0)) {
                lemma_moderate_transfer(
                    outsiders@,
                    tree_ents(*self).to_multiset(),
                    tree_ents(t0),
                );
            }
        }
        outsiders
    }

    /// Integrate every entity of this subtree by one tick: each is replaced
    /// by its integrated value, position by position.
    pub fn run_movements(&mut self)
        requires
            old(self).wf(),
            movements_ok(tree_ents(*old(self))),
        ensures
            final(self).wf(),
            final(self).scale == old(self).scale,
            final(self).area == old(self).area,
            movements_shape(*old(self), *final(self)),
            pointwise(integrated_rel(), tree_ents(*old(self)), tree_ents(*final(self))),
        decreases old(self).scale,
    {
        let ghost t0 = *old(self);
        proof {
            lemma_wf_children_iff(t0.sub_trees@, t0.scale, t0.area, 0);
            assert(tree_ents(t0) == t0.entities@ + children_ents(t0.sub_trees@, 0));
        }
        let ghost locals0 = self.entities@;
        let n = self.entities.len();
        let mut k: usize = 0;
        while k < n
            invariant
                t0 == *old(self),
                t0.wf(),
                movements_ok(tree_ents(t0)),
                locals0 == t0.entities@,
                tree_ents(t0) == locals0 + children_ents(t0.sub_trees@, 0),
                n == locals0.len(),
                k <= n,
                self.scale == t0.scale,
                self.area == t0.area,
                self.sub_trees@ == t0.sub_trees@,
                self.entities@.len() == n,
                forall|m: int|
                    0 <= m < k ==> #[trigger] self.entities@[m] == crate::entity::integrate(
                        locals0[m],
                    ),
                forall|m: int| k <= m < n ==> #[trigger] self.entities@[m] == locals0[m],
                ents_in_range(self.entities@),
            decreases n - k,
        {
            let ghost locals_pre = self.entities@;
            proof {
                assert(tree_ents(t0)[k as int] == locals0[k as int]);
                assert(movement_ok(locals0[k as int]));
                assert(self.entities@[k as int] == locals0[k as int]);
            }
            self.entities[k].run_movement();
            proof {
                assert(self.entities@ =~= locals_pre.update(
                    k as int,
                    self.entities@[k as int],
                ));
                assert(self.entities@[k as int] == crate::entity::integrate(locals0[k as int]));
                assert forall|m: int| 0 <= m < self.entities@.len() implies ent_in_range(
                    #[trigger] self.entities@[m],
                ) by {
                    if m != k {
                        assert(self.entities@[m] == locals_pre[m]);
                    }
                }
            }
            k = k + 1;
        }
        let mut i: usize = 0;
        while i < 8
            invariant
                t0 == *old(self),
                t0.wf(),
                movements_ok(tree_ents(t0)),
                locals0 == t0.entities@,
                tree_ents(t0) == locals0 + children_ents(t0.sub_trees@, 0),
                i <= 8,
                self.scale == t0.scale,
                self.area == t0.area,
                self.wf(),
                self.entities@.len() == locals0.len(),
                forall|m: int|
                    0 <= m < locals0.len() ==> #[trigger] self.entities@[m]
                        == crate::entity::integrate(locals0[m]),
                forall|j: int|
                    0 <= j < i ==> movements_shape_opt(
                        t0.sub_trees@[j],
                        #[trigger] self.sub_trees@[j],
                    ),
                forall|j: int| i <= j < 8 ==> #[trigger] self.sub_trees@[j] == t0.sub_trees@[j],
            decreases 8 - i,
        {
            proof {
                lemma_wf_children_iff(self.sub_trees@, self.scale, self.area, 0);
            }
            if self.sub_trees[i].is_some() {
                let ghost s_a = self.sub_trees@;
                let mut child_opt = self.sub_trees[i].take();
                let mut child = child_opt.unwrap();
                let ghost child0 = *child;
                proof {
                    assert(child_ok(s_a[i as int], t0.scale, t0.area, i as int));
                    assert(s_a[i as int] == t0.sub_trees@[i as int]);
                    lemma_movements_ok_child(t0, i as int);
                    assert(opt_ents(t0.sub_trees@[i as int]) == tree_ents(child0));
                }
                child.run_movements();
                self.sub_trees[i] = Some(child);
                proof {
                    let s_c = self.sub_trees@;
                    assert(s_c =~= s_a.update(i as int, s_c[i as int]));
                    assert(child_ok(s_c[i as int], t0.scale, t0.area, i as int));
                    assert forall|j: int| 0 <= j < 8 implies child_ok(
                        #[trigger] s_c[j],
                        self.scale,
                        self.area,
                        j,
                    ) by {
                        if j != i {
                            assert(s_c[j] == s_a[j]);
                        }
                    }
                    lemma_wf_children_iff(s_c, self.scale, self.area, 0);
                    assert forall|j: int| 0 <= j < i + 1 implies movements_shape_opt(
                        t0.sub_trees@[j],
                        #[trigger] s_c[j],
                    ) by {
                        if j != i {
                            assert(s_c[j] == s_a[j]);
                        }
                    }
                }
            } else {
                proof {
                    assert(self.sub_trees@[i as int] is None);
                    assert(t0.sub_trees@[i as int] is None);
                    assert(movements_shape_opt(
                        t0.sub_trees@[i as int],
                        self.sub_trees@[i as int],
                    ));
                }
            }
            i = i + 1;
        }
        proof {
            lemma_movements_shape_children_iff(t0.sub_trees@, self.sub_trees@, 0);
            assert(movements_shape(t0, *self));
            lemma_movements_shape_pointwise(t0, *self);
        }
    }

    /// Write this tick's controller inputs into every controlled agent of
    /// the subtree. This is the one point per tick at which the outside
    /// world's inputs enter the core.
    pub fn apply_controls(&mut self, forces: Vec3, drop_block: bool, drop_fixed: bool)
        requires
            old(self).wf(),
        ensures
            final(self).wf(),
            final(self).scale == old(self).scale,
            final(self).area == old(self).area,
            pointwise(
                controls_rel(forces, drop_block, drop_fixed),
                tree_ents(*old(self)),
                tree_ents(*final(self)),
            ),
        decreases old(self).scale,
    {
        let ghost t0 = *old(self);
        let ghost rel = controls_rel(forces, drop_block, drop_fixed);
        proof {
            lemma_wf_children_iff(t0.sub_trees@, t0.scale, t0.area, 0);
            assert(tree_ents(t0) == t0.entities@ + children_ents(t0.sub_trees@, 0));
        }
        let ghost locals0 = self.entities@;
        let n = self.entities.len();
        let mut k: usize = 0;
        while k < n
            invariant
                t0 == *old(self),
                t0.wf(),
                rel == controls_rel(forces, drop_block, drop_fixed),
                locals0 == t0.entities@,
                n == locals0.len(),
                k <= n,
                self.scale == t0.scale,
                self.area == t0.area,
                self.sub_trees@ == t0.sub_trees@,
                self.entities@.len() == n,
                forall|m: int|
                    0 <= m < k ==> #[trigger] self.entities@[m] == set_controls(
                        locals0[m],
                        forces,
                        drop_block,
                        drop_fixed,
                    ),
                forall|m: int| k <= m < n ==> #[trigger] self.entities@[m] == locals0[m],
                ents_in_range(self.entities@),
            decreases n - k,
        {
            let ghost locals_pre = self.entities@;
            let is_player = match &self.entities[k].entity {
                crate::entity::EntityData::Player(_) => true,
                crate::entity::EntityData::Voxels(_) => false,
            };
            if is_player {
                self.entities[k].entity = crate::entity::EntityData::Player(
                    crate::player::Player {
                        control_forces: forces,
                        drop_block,
                        drop_block_fixed: drop_fixed,
                    },
                );
                proof {
                    assert(self.entities@ =~= locals_pre.update(
                        k as int,
                        self.entities@[k as int],
                    ));
                    assert(self.entities@[k as int] == set_controls(
                        locals0[k as int],
                        forces,
                        drop_block,
                        drop_fixed,
                    ));
                    assert forall|m: int| 0 <= m < self.entities@.len() implies ent_in_range(
                        #[trigger] self.entities@[m],
                    ) by {
                        if m != k {
                            assert(self.entities@[m] == locals_pre[m]);
                        } else {
                            assert(self.entities@[m].bounding_sphere == locals_pre[
                                m].bounding_sphere);
                        }
                    }
                }
            } else {
                proof {
                    assert(self.entities@[k as int] == set_controls(
                        locals0[k as int],
                        forces,
                        drop_block,
                        drop_fixed,
                    ));
                }
            }
            k = k + 1;
        }
        let mut i: usize = 0;
        while i < 8
            invariant
                t0 == *old(self),
                t0.wf(),
                rel == controls_rel(forces, drop_block, drop_fixed),
                locals0 == t0.entities@,
                tree_ents(t0) == locals0 + children_ents(t0.sub_trees@, 0),
                i <= 8,
                self.scale == t0.scale,
                self.area == t0.area,
                self.wf(),
                pointwise(rel, locals0, self.entities@),
                forall|j: int|
                    0 <= j < i ==> pointwise(
                        rel,
                        opt_ents(t0.sub_trees@[j]),
                        opt_ents(#[trigger] self.sub_trees@[j]),
                    ),
                forall|j: int| i <= j < 8 ==> #[trigger] self.sub_trees@[j] == t0.sub_trees@[j],
            decreases 8 - i,
        {
            proof {
                lemma_wf_children_iff(self.sub_trees@, self.scale, self.area, 0);
            }
            if self.sub_trees[i].is_some() {
                let ghost s_a = self.sub_trees@;
                let mut child_opt = self.sub_trees[i].take();
                let mut child = child_opt.unwrap();
                let ghost child0 = *child;
                proof {
                    assert(child_ok(s_a[i as int], t0.scale, t0.area, i as int));
                    assert(s_a[i as int] == t0.sub_trees@[i as int]);
                    assert(opt_ents(t0.sub_trees@[i as int]) == tree_ents(child0));
                }
                child.apply_controls(forces, drop_block, drop_fixed);
                self.sub_trees[i] = Some(child);
                proof {
                    let s_c = self.sub_trees@;
                    assert(s_c =~= s_a.update(i as int, s_c[i as int]));
                    assert forall|j: int| 0 <= j < 8 implies child_ok(
                        #[trigger] s_c[j],
                        self.scale,
                        self.area,
                        j,
                    ) by {
                        if j != i {
                            assert(s_c[j] == s_a[j]);
                        }
                    }
                    lemma_wf_children_iff(s_c, self.scale, self.area, 0);
                    assert forall|j: int| 0 <= j < i + 1 implies pointwise(
                        rel,
                        opt_ents(t0.sub_trees@[j]),
                        opt_ents(#[trigger] s_c[j]),
                    ) by {
                        if j != i {
                            assert(s_c[j] == s_a[j]);
                        } else {
                            assert(opt_ents(s_c[j]) == tree_ents(*s_c[j]->Some_0));
                        }
                    }
                }
            } else {
                proof {
                    assert(self.sub_trees@[i as int] is None);
                    assert(pointwise(
                        rel,
                        opt_ents(t0.sub_trees@[i as int]),
                        opt_ents(self.sub_trees@[i as int]),
                    ));
                }
            }
            i = i + 1;
        }
        proof {
            lemma_children_pointwise(rel, t0.sub_trees@, self.sub_trees@, 0);
            lemma_pointwise_concat(
                rel,
                locals0,
                self.entities@,
                children_ents(t0.sub_trees@, 0),
                children_ents(self.sub_trees@, 0),
            );
            assert(tree_ents(*self) == self.entities@ + children_ents(self.sub_trees@, 0));
        }
    }

    /// Run the per-tick actions over this subtree: every flagged controller
    /// drops one voxel body at its cell, appended after the cell's entities.
    pub fn run_actions(&mut self)
        requires
            old(self).wf(),
            spawns_ok(tree_ents(*old(self))),
            tree_ents(*old(self)).len() + tree_spawns(*old(self)) <= usize::MAX,
        ensures
            final(self).wf(),
            final(self).scale == old(self).scale,
            final(self).area == old(self).area,
            tree_ents(*final(self)).len() == tree_ents(*old(self)).len() + tree_spawns(
                *old(self),
            ),
            actions_shape(*old(self), *final(self)),
            movements_ok(tree_ents(*old(self))) ==> movements_ok(tree_ents(*final(self))),
            all_tick_moderate(tree_ents(*old(self))) ==> all_landing_moderate(
                tree_ents(*final(self)),
            ),
        decreases old(self).scale,
    {
        let ghost t0 = *old(self);
        let ghost locals0 = self.entities@;
        proof {
            lemma_wf_children_iff(t0.sub_trees@, t0.scale, t0.area, 0);
            assert(tree_ents(t0) == locals0 + children_ents(t0.sub_trees@, 0));
            assert forall|k: int| 0 <= k < locals0.len() implies spawn_fits(
                #[trigger] locals0[k],
            ) by {
                assert(tree_ents(t0)[k] == locals0[k]);
                assert(spawn_fits(tree_ents(t0)[k]));
            }
            lemma_spawns_bound(locals0, locals0.len() as int);
            if movements_ok(tree_ents(t0)) {
                assert forall|k: int| 0 <= k < locals0.len() implies movement_ok(
                    #[trigger] locals0[k],
                ) by {
                    assert(tree_ents(t0)[k] == locals0[k]);
                    assert(movement_ok(tree_ents(t0)[k]));
                }
            }
            if all_tick_moderate(tree_ents(t0)) {
                assert forall|k: int| 0 <= k < locals0.len() implies tick_moderate(
                    #[trigger] locals0[k],
                ) by {
                    assert(tree_ents(t0)[k] == locals0[k]);
                    assert(tick_moderate(tree_ents(t0)[k]));
                }
            }
        }
        run_actions_local(&mut self.entities);
        proof {
            if movements_ok(tree_ents(t0)) {
                assert forall|j: int| 0 <= j < 8 implies movements_ok(
                    opt_ents(#[trigger] self.sub_trees@[j]),
                ) by {
                    lemma_movements_ok_child(t0, j);
                    assert(self.sub_trees@[j] == t0.sub_trees@[j]);
                }
            }
            if all_tick_moderate(tree_ents(t0)) {
                assert forall|j: int| 0 <= j < 8 implies all_tick_moderate(
                    opt_ents(#[trigger] self.sub_trees@[j]),
                ) by {
                    lemma_tick_moderate_child(t0, j);
                    assert(self.sub_trees@[j] == t0.sub_trees@[j]);
                }
            }
        }
        let mut i: usize = 0;
        while i < 8
            invariant
                t0 == *old(self),
                t0.wf(),
                spawns_ok(tree_ents(t0)),
                tree_ents(t0).len() + tree_spawns(t0) <= usize::MAX,
                locals0 == t0.entities@,
                tree_ents(t0) == locals0 + children_ents(t0.sub_trees@, 0),
                i <= 8,
                self.scale == t0.scale,
                self.area == t0.area,
                self.wf(),
                self.entities@.len() == locals0.len() + spawns_of(locals0, locals0.len() as int),
                forall|j: int| i <= j < 8 ==> #[trigger] self.sub_trees@[j] == t0.sub_trees@[j],
                forall|j: int|
                    0 <= j < i ==> actions_shape_opt(
                        t0.sub_trees@[j],
                        #[trigger] self.sub_trees@[j],
                    ),
                self.entities@.len() == locals0.len() + spawns_of(locals0, locals0.len() as int),
                forall|k: int| 0 <= k < locals0.len() ==> #[trigger] self.entities@[k] == locals0[k],
                forall|k: int|
                    locals0.len() <= k < self.entities@.len() ==> spawned_rock_of(
                        #[trigger] self.entities@[k],
                        locals0,
                    ),
                children_ents(self.sub_trees@, 0).len() + children_spawns(t0.sub_trees@, i as int)
                    == children_ents(t0.sub_trees@, 0).len() + children_spawns(t0.sub_trees@, 0),
                movements_ok(tree_ents(t0)) ==> movements_ok(self.entities@) && (forall|j: int|
                    0 <= j < 8 ==> movements_ok(opt_ents(#[trigger] self.sub_trees@[j]))),
                all_tick_moderate(tree_ents(t0)) ==> all_landing_moderate(self.entities@) && (
                forall|j: int|
                    0 <= j < i ==> all_landing_moderate(
                        opt_ents(#[trigger] self.sub_trees@[j]),
                    )) && (forall|j: int|
                    i <= j < 8 ==> all_tick_moderate(opt_ents(#[trigger] self.sub_trees@[j]))),
            decreases 8 - i,
        {
            proof {
                lemma_wf_children_iff(self.sub_trees@, self.scale, self.area, 0);
                assert(children_spawns(t0.sub_trees@, i as int) == opt_spawns(
                    t0.sub_trees@[i as int],
                ) + children_spawns(t0.sub_trees@, i as int + 1));
            }
            if self.sub_trees[i].is_some() {
                let ghost s_a = self.sub_trees@;
                let mut child_opt = self.sub_trees[i].take();
                let mut child = child_opt.unwrap();
                let ghost child0 = *child;
                let ghost s_b = self.sub_trees@;
                proof {
                    assert(child_ok(s_a[i as int], t0.scale, t0.area, i as int));
                    assert(s_a[i as int] == t0.sub_trees@[i as int]);
                    lemma_spawns_ok_child(t0, i as int);
                    assert(opt_ents(t0.sub_trees@[i as int]) == tree_ents(child0));
                    assert(opt_spawns(t0.sub_trees@[i as int]) == tree_spawns(child0));
                    lemma_children_spawns_prefix_bound(t0.sub_trees@, i as int, 0);
                    lemma_children_ents_prefix_bound(t0.sub_trees@, i as int, 0);
                    assert(tree_ents(child0).len() + tree_spawns(child0) <= usize::MAX);
                    assert(s_b =~= s_a.update(i as int, None));
                    lemma_children_ents_update(s_a, i as int, None, 0);
                    crate::matter_tree::lemma_ms_len_balance(
                        children_ents(s_b, 0).to_multiset(),
                        tree_ents(child0).to_multiset(),
                        children_ents(s_a, 0).to_multiset(),
                        Multiset::empty(),
                    );
                }
                proof {
                    if movements_ok(tree_ents(t0)) {
                        lemma_movements_ok_child(t0, i as int);
                    }
                    if all_tick_moderate(tree_ents(t0)) {
                        assert(all_tick_moderate(opt_ents(t0.sub_trees@[i as int])));
                        assert(opt_ents(s_a[i as int]) == tree_ents(child0));
                    }
                }
                child.run_actions();
                self.sub_trees[i] = Some(child);
                proof {
                    let s_c = self.sub_trees@;
                    assert(s_c =~= s_b.update(i as int, s_c[i as int]));
                    lemma_children_ents_update(s_b, i as int, s_c[i as int], 0);
                    crate::matter_tree::lemma_ms_len_balance(
                        children_ents(s_c, 0).to_multiset(),
                        Multiset::empty(),
                        children_ents(s_b, 0).to_multiset(),
                        opt_ents(s_c[i as int]).to_multiset(),
                    );
                    assert forall|j: int| 0 <= j < 8 implies child_ok(
                        #[trigger] s_c[j],
                        self.scale,
                        self.area,
                        j,
                    ) by {
                        if j != i {
                            assert(s_c[j] == s_a[j]);
                        }
                    }
                    lemma_wf_children_iff(s_c, self.scale, self.area, 0);
                    assert forall|j: int| 0 <= j < i + 1 implies actions_shape_opt(
                        t0.sub_trees@[j],
                        #[trigger] s_c[j],
                    ) by {
                        if j != i {
                            assert(s_c[j] == s_a[j]);
                        }
                    }
                    if movements_ok(tree_ents(t0)) {
                        assert forall|j: int| 0 <= j < 8 implies movements_ok(
                            opt_ents(#[trigger] s_c[j]),
                        ) by {
                            if j != i {
                                assert(s_c[j] == s_a[j]);
                            } else {
                                assert(opt_ents(s_c[j]) == tree_ents(*s_c[j]->Some_0));
                            }
                        }
                    }
                    if all_tick_moderate(tree_ents(t0)) {
                        assert forall|j: int| 0 <= j < i + 1 implies all_landing_moderate(
                            opt_ents(#[trigger] s_c[j]),
                        ) by {
                            if j != i {
                                assert(s_c[j] == s_a[j]);
                            } else {
                                assert(opt_ents(s_c[j]) == tree_ents(*s_c[j]->Some_0));
                            }
                        }
                        assert forall|j: int| i + 1 <= j < 8 implies all_tick_moderate(
                            opt_ents(#[trigger] s_c[j]),
                        ) by {
                            assert(s_c[j] == s_a[j]);
                        }
                    }
                }
            } else {
                proof {
                    assert(self.sub_trees@[i as int] is None);
                    assert(t0.sub_trees@[i as int] is None);
                    assert(actions_shape_opt(
                        t0.sub_trees@[i as int],
                        self.sub_trees@[i as int],
                    ));
                    if movements_ok(tree_ents(t0)) {
                        lemma_movements_ok_child(t0, i as int);
                        assert(opt_ents(self.sub_trees@[i as int]) == opt_ents(
                            t0.sub_trees@[i as int],
                        ));
                    }
                    if all_tick_moderate(tree_ents(t0)) {
                        assert(all_landing_moderate(opt_ents(self.sub_trees@[i as int])));
                    }
                }
            }
            i = i + 1;
        }
        proof {
            assert(tree_ents(*self) == self.entities@ + children_ents(self.sub_trees@, 0));
            lemma_actions_shape_children_iff(t0.sub_trees@, self.sub_trees@, 0);
            assert(actions_shape(t0, *self));
            if movements_ok(tree_ents(t0)) {
                lemma_movements_ok_children(self.sub_trees@, 0);
                lemma_movements_ok_concat(self.entities@, children_ents(self.sub_trees@, 0));
            }
            if all_tick_moderate(tree_ents(t0)) {
                lemma_landing_children(self.sub_trees@, 0);
                lemma_landing_concat(self.entities@, children_ents(self.sub_trees@, 0));
            }
        }
    }

    /// Apply collisions between one outside entity and every entity stored at
    /// this cell (one level only): each overlapping pair raises both tallies,
    /// stopping at the top of the counter's type.
    pub fn apply_external_collisions(&mut self, outsider: &mut Entity)
        requires
            old(self).wf(),
            ent_in_range(*old(outsider)),
        ensures
            final(self).wf(),
            final(self).scale == old(self).scale,
            final(self).area == old(self).area,
            final(self).sub_trees@ == old(self).sub_trees@,
            final(self).entities@.len() == old(self).entities@.len(),
            forall|k: int|
                0 <= k < old(self).entities@.len() ==> same_core(
                    #[trigger] old(self).entities@[k],
                    final(self).entities@[k],
                ),
            forall|k: int|
                0 <= k < old(self).entities@.len() ==> (
                #[trigger] final(self).entities@[k]).collision_count == (
                if crate::geometry::spheres_intersect(
                    old(self).entities@[k].bounding_sphere,
                    old(outsider).bounding_sphere,
                ) {
                    sat_addn(old(self).entities@[k].collision_count, 1)
                } else {
                    old(self).entities@[k].collision_count
                }),
            same_core(*old(outsider), *final(outsider)),
            final(outsider).collision_count == sat_addn(
                old(outsider).collision_count,
                hits_one(
                    old(self).entities@,
                    old(outsider).bounding_sphere,
                    old(self).entities@.len() as int,
                ),
            ),
    {
        let ghost s0 = self.entities@;
        let ghost ob = outsider.bounding_sphere;
        let n = self.entities.len();
        let mut d: usize = 0;
        let mut k: usize = 0;
        while k < n
            invariant
                old(self).wf(),
                self.scale == old(self).scale,
                self.area == old(self).area,
                self.sub_trees@ == old(self).sub_trees@,
                ent_in_range(*old(outsider)),
                *outsider == *old(outsider),
                s0 == old(self).entities@,
                ob == old(outsider).bounding_sphere,
                n == s0.len(),
                k <= n,
                d <= k,
                d == hits_one(s0, ob, k as int),
                self.entities@.len() == n,
                forall|m: int| k <= m < n ==> #[trigger] self.entities@[m] == s0[m],
                forall|m: int|
                    0 <= m < k ==> same_core(#[trigger] s0[m], self.entities@[m])
                        && self.entities@[m].collision_count == (
                    if crate::geometry::spheres_intersect(s0[m].bounding_sphere, ob) {
                        sat_addn(s0[m].collision_count, 1)
                    } else {
                        s0[m].collision_count
                    }),
            decreases n - k,
        {
            proof {
                assert(ent_in_range(s0[k as int]));
            }
            let ghost pre = self.entities@;
            let hit = self.entities[k].check_collision(outsider);
            if hit {
                let c = self.entities[k].collision_count;
                let nc = if c < u64::MAX {
                    c + 1
                } else {
                    u64::MAX
                };
                self.entities[k].collision_count = nc;
                d = d + 1;
                proof {
                    assert(self.entities@ =~= pre.update(k as int, self.entities@[k as int]));
                }
            }
            k = k + 1;
        }
        let c = outsider.collision_count;
        proof {
            lemma_hits_one_bound(s0, ob, n as int);
        }
        if c <= u64::MAX - (d as u64) {
            outsider.collision_count = c + (d as u64);
        } else {
            outsider.collision_count = u64::MAX;
        }
        proof {
            assert forall|m: int| 0 <= m < self.entities@.len() implies ent_in_range(
                #[trigger] self.entities@[m],
            ) by {
                assert(same_core(old(self).entities@[m], self.entities@[m]));
                assert(ent_in_range(old(self).entities@[m]));
            }
        }
    }

    /// Apply this tick's collisions over the subtree: every unordered pair of
    /// entities stored at the same cell, then each entity against the locals
    /// of every child whose grown half-cube contains its center, then each
    /// child's own pass. Each entity's tally grows by exactly the number of
    /// overlapping partners its cell's pass considers; nothing but tallies
    /// changes, and no cell appears or vanishes.
    #[verifier::rlimit(100)]
    #[verifier::spinoff_prover]
    pub fn apply_neighbourhood_collisions(&mut self)
        requires
            old(self).wf(),
        ensures
            final(self).wf(),
            final(self).scale == old(self).scale,
            final(self).area == old(self).area,
            collision_shape(*old(self), *final(self)),
            pointwise(same_core_rel(), tree_ents(*old(self)), tree_ents(*final(self))),
            forall|k: int|
                0 <= k < old(self).entities@.len() ==> (
                #[trigger] final(self).entities@[k]).collision_count == sat_addn(
                    old(self).entities@[k].collision_count,
                    local_collision_delta(*old(self), k),
                ),
        decreases old(self).scale,
    {
        let ghost t0 = *old(self);
        proof {
            lemma_wf_children_iff(t0.sub_trees@, t0.scale, t0.area, 0);
            assert(tree_ents(t0) == t0.entities@ + children_ents(t0.sub_trees@, 0));
            assert forall|k: int| 0 <= k < t0.entities@.len() implies ent_in_range(
                #[trigger] t0.entities@[k],
            ) by {}
        }
        apply_pairwise_collisions(&mut self.entities);
        proof {
            lemma_collision_shape_children_refl(self.sub_trees@, 0);
            lemma_collision_shape_children_iff(t0.sub_trees@, self.sub_trees@, 0);
        }
        let n = self.entities.len();
        let mut k: usize = 0;
        while k < n
            invariant
                t0 == *old(self),
                t0.wf(),
                tree_ents(t0) == t0.entities@ + children_ents(t0.sub_trees@, 0),
                n == t0.entities@.len(),
                k <= n,
                self.scale == t0.scale,
                self.area == t0.area,
                self.wf(),
                self.entities@.len() == n,
                forall|m: int|
                    0 <= m < n ==> same_core(#[trigger] t0.entities@[m], self.entities@[m]),
                forall|m: int|
                    0 <= m < k ==> (#[trigger] self.entities@[m]).collision_count == sat_addn(
                        t0.entities@[m].collision_count,
                        local_collision_delta(t0, m),
                    ),
                forall|m: int|
                    k <= m < n ==> (#[trigger] self.entities@[m]).collision_count == sat_addn(
                        t0.entities@[m].collision_count,
                        hits(t0.entities@, m, n as int),
                    ),
                forall|j: int|
                    0 <= j < 8 ==> collision_shape_opt(
                        t0.sub_trees@[j],
                        #[trigger] self.sub_trees@[j],
                    ),
            decreases n - k,
        {
            let ghost gquads = quads_of(t0.entities@[k as int], t0.area);
            proof {
                assert(same_core(t0.entities@[k as int], self.entities@[k as int]));
                assert(ent_in_range(t0.entities@[k as int]));
                assert(ent_in_range(self.entities@[k as int]));
                crate::geometry::lemma_div_trunc_bounds(self.area.size as int, 2);
                assert(rel_x(self.entities@[k as int].bounding_sphere, self.area) == rel_x(
                    t0.entities@[k as int].bounding_sphere,
                    t0.area,
                ));
            }
            let quads = self.entities[k].get_collisioned_quadrants(&self.area);
            proof {
                assert(quads@ == gquads);
            }
            let mut qi: usize = 0;
            while qi < quads.len()
                invariant
                    t0 == *old(self),
                    t0.wf(),
                    tree_ents(t0) == t0.entities@ + children_ents(t0.sub_trees@, 0),
                    n == t0.entities@.len(),
                    k < n,
                    qi <= quads@.len(),
                    quads@ == gquads,
                    gquads == quads_of(t0.entities@[k as int], t0.area),
                    self.scale == t0.scale,
                    self.area == t0.area,
                    self.wf(),
                    self.entities@.len() == n,
                    forall|m: int|
                        0 <= m < n ==> same_core(#[trigger] t0.entities@[m], self.entities@[m]),
                    forall|m: int|
                        0 <= m < k ==> (#[trigger] self.entities@[m]).collision_count == sat_addn(
                            t0.entities@[m].collision_count,
                            local_collision_delta(t0, m),
                        ),
                    forall|m: int|
                        k < m < n ==> (#[trigger] self.entities@[m]).collision_count == sat_addn(
                            t0.entities@[m].collision_count,
                            hits(t0.entities@, m, n as int),
                        ),
                    self.entities@[k as int].collision_count == sat_addn(
                        t0.entities@[k as int].collision_count,
                        hits(t0.entities@, k as int, n as int) + listed_external_hits(
                            t0.entities@[k as int],
                            t0,
                            gquads,
                            qi as int,
                        ),
                    ),
                    forall|j: int|
                        0 <= j < 8 ==> collision_shape_opt(
                            t0.sub_trees@[j],
                            #[trigger] self.sub_trees@[j],
                        ),
                decreases quads@.len() - qi,
            {
                let q = quads[qi];
                let ghost pre_count = self.entities@[k as int].collision_count;
                if (q as usize) < 8 {
                    if self.sub_trees[q as usize].is_some() {
                        let ghost s_a = self.sub_trees@;
                        let ghost locals_a = self.entities@;
                        let mut child_opt = self.sub_trees[q as usize].take();
                        let mut child = child_opt.unwrap();
                        let ghost childp = *child;
                        proof {
                            lemma_wf_children_iff(s_a, t0.scale, t0.area, 0);
                            assert(child_ok(s_a[q as int], t0.scale, t0.area, q as int));
                            assert(collision_shape_opt(t0.sub_trees@[q as int], s_a[q as int]));
                            assert(t0.sub_trees@[q as int] is Some);
                            assert(same_core(t0.entities@[k as int], locals_a[k as int]));
                            assert(ent_in_range(t0.entities@[k as int]));
                            assert(ent_in_range(locals_a[k as int]));
                        }
                        child.apply_external_collisions(&mut self.entities[k]);
                        self.sub_trees[q as usize] = Some(child);
                        proof {
                            let s_c = self.sub_trees@;
                            let child0 = *t0.sub_trees@[q as int]->Some_0;
                            assert(s_c =~= s_a.update(q as int, s_c[q as int]));
                            assert(self.entities@ =~= locals_a.update(
                                k as int,
                                self.entities@[k as int],
                            ));
                            // the child call counts overlaps against spheres the
                            // pass never changed
                            assert(collision_shape(child0, childp));
                            assert forall|m: int|
                                0 <= m < child0.entities@.len() implies (
                            #[trigger] childp.entities@[m]).bounding_sphere == child0.entities@[
                            m].bounding_sphere by {
                                assert(same_core(child0.entities@[m], childp.entities@[m]));
                            }
                            lemma_hits_one_same_spheres(
                                child0.entities@,
                                childp.entities@,
                                locals_a[k as int].bounding_sphere,
                                child0.entities@.len() as int,
                            );
                            assert(self.entities@[k as int].collision_count == sat_addn(
                                pre_count,
                                hits_one(
                                    child0.entities@,
                                    t0.entities@[k as int].bounding_sphere,
                                    child0.entities@.len() as int,
                                ),
                            ));
                            lemma_sat_addn_compose(
                                t0.entities@[k as int].collision_count,
                                hits(t0.entities@, k as int, n as int) + listed_external_hits(
                                    t0.entities@[k as int],
                                    t0,
                                    gquads,
                                    qi as int,
                                ),
                                hits_one(
                                    child0.entities@,
                                    t0.entities@[k as int].bounding_sphere,
                                    child0.entities@.len() as int,
                                ),
                            );
                            assert(listed_external_hits(
                                t0.entities@[k as int],
                                t0,
                                gquads,
                                qi as int + 1,
                            ) == listed_external_hits(t0.entities@[k as int], t0, gquads, qi as int)
                                + hits_one(
                                child0.entities@,
                                t0.entities@[k as int].bounding_sphere,
                                child0.entities@.len() as int,
                            ));
                            // the updated child is still a collision shape of the
                            // original
                            let childq = *s_c[q as int]->Some_0;
                            lemma_collision_shape_children_refl(childp.sub_trees@, 0);
                            assert(collision_shape(childp, childq));
                            lemma_collision_shape_trans(child0, childp, childq);
                            assert forall|m: int| 0 <= m < n implies same_core(
                                #[trigger] t0.entities@[m],
                                self.entities@[m],
                            ) by {
                                if m != k {
                                    assert(self.entities@[m] == locals_a[m]);
                                }
                            }
                            assert forall|j: int| 0 <= j < 8 implies child_ok(
                                #[trigger] s_c[j],
                                self.scale,
                                self.area,
                                j,
                            ) by {
                                if j != q as int {
                                    assert(s_c[j] == s_a[j]);
                                    assert(child_ok(s_a[j], t0.scale, t0.area, j));
                                }
                            }
                            lemma_wf_children_iff(s_c, self.scale, self.area, 0);
                            assert forall|j: int| 0 <= j < 8 implies collision_shape_opt(
                                t0.sub_trees@[j],
                                #[trigger] s_c[j],
                            ) by {
                                if j != q as int {
                                    assert(s_c[j] == s_a[j]);
                                }
                            }
                        }
                    } else {
                        proof {
                            assert(collision_shape_opt(
                                t0.sub_trees@[q as int],
                                self.sub_trees@[q as int],
                            ));
                            assert(t0.sub_trees@[q as int] is None);
                            assert(listed_external_hits(
                                t0.entities@[k as int],
                                t0,
                                gquads,
                                qi as int + 1,
                            ) == listed_external_hits(
                                t0.entities@[k as int],
                                t0,
                                gquads,
                                qi as int,
                            ));
                        }
                    }
                } else {
                    proof {
                        assert(listed_external_hits(
                            t0.entities@[k as int],
                            t0,
                            gquads,
                            qi as int + 1,
                        ) == listed_external_hits(t0.entities@[k as int], t0, gquads, qi as int));
                    }
                }
                qi = qi + 1;
            }
            proof {
                assert(self.entities@[k as int].collision_count == sat_addn(
                    t0.entities@[k as int].collision_count,
                    local_collision_delta(t0, k as int),
                ));
            }
            k = k + 1;
        }
        // each child then runs its own pass
        let mut i: usize = 0;
        while i < 8
            invariant
                t0 == *old(self),
                t0.wf(),
                tree_ents(t0) == t0.entities@ + children_ents(t0.sub_trees@, 0),
                i <= 8,
                self.scale == t0.scale,
                self.area == t0.area,
                self.wf(),
                self.entities@.len() == t0.entities@.len(),
                forall|m: int|
                    0 <= m < t0.entities@.len() ==> same_core(
                        #[trigger] t0.entities@[m],
                        self.entities@[m],
                    ),
                forall|m: int|
                    0 <= m < t0.entities@.len() ==> (
                    #[trigger] self.entities@[m]).collision_count == sat_addn(
                        t0.entities@[m].collision_count,
                        local_collision_delta(t0, m),
                    ),
                forall|j: int|
                    0 <= j < 8 ==> collision_shape_opt(
                        t0.sub_trees@[j],
                        #[trigger] self.sub_trees@[j],
                    ),
            decreases 8 - i,
        {
            proof {
                lemma_wf_children_iff(self.sub_trees@, self.scale, self.area, 0);
            }
            if self.sub_trees[i].is_some() {
                let ghost s_a = self.sub_trees@;
                let mut child_opt = self.sub_trees[i].take();
                let mut child = child_opt.unwrap();
                let ghost childp = *child;
                proof {
                    assert(child_ok(s_a[i as int], self.scale, self.area, i as int));
                    assert(collision_shape_opt(t0.sub_trees@[i as int], s_a[i as int]));
                }
                child.apply_neighbourhood_collisions();
                self.sub_trees[i] = Some(child);
                proof {
                    let s_c = self.sub_trees@;
                    let child0 = *t0.sub_trees@[i as int]->Some_0;
                    assert(s_c =~= s_a.update(i as int, s_c[i as int]));
                    lemma_collision_shape_trans(child0, childp, *s_c[i as int]->Some_0);
                    assert forall|j: int| 0 <= j < 8 implies child_ok(
                        #[trigger] s_c[j],
                        self.scale,
                        self.area,
                        j,
                    ) by {
                        if j != i {
                            assert(s_c[j] == s_a[j]);
                        }
                    }
                    lemma_wf_children_iff(s_c, self.scale, self.area, 0);
                    assert forall|j: int| 0 <= j < 8 implies collision_shape_opt(
                        t0.sub_trees@[j],
                        #[trigger] s_c[j],
                    ) by {
                        if j != i {
                            assert(s_c[j] == s_a[j]);
                        }
                    }
                }
            }
            i = i + 1;
        }
        proof {
            lemma_collision_shape_children_iff(t0.sub_trees@, self.sub_trees@, 0);
            assert(collision_shape(t0, *self));
            lemma_collision_shape_pointwise(t0, *self);
        }
    }

    /// The entities stored at this cell whose bounding sphere reaches past
    /// its faces, each as its index among the locals with the neighbor
    /// offsets it reaches into. Consumed for collisions across matter trees.
    pub fn get_entities_touching_outside(&self) -> (r: Vec<(usize, Vec<FineDirection>)>)
        requires
            self.wf(),
        ensures
            forall|k: int|
                0 <= k < r@.len() ==> {
                    let pr = #[trigger] r@[k];
                    &&& pr.0 < self.entities@.len()
                    &&& pr.1@.len() > 0
                    &&& pr.1@ == touched_dirs_of(self.entities@[pr.0 as int], self.area)
                },
            forall|j: int|
                0 <= j < self.entities@.len() && touched_dirs_of(
                    #[trigger] self.entities@[j],
                    self.area,
                ).len() > 0 ==> (exists|k: int| 0 <= k < r@.len() && (#[trigger] r@[k]).0 == j),
            forall|k1: int, k2: int|
                0 <= k1 < k2 < r@.len() ==> (#[trigger] r@[k1]).0 < (#[trigger] r@[k2]).0,
    {
        let n = self.entities.len();
        let mut ret: Vec<(usize, Vec<FineDirection>)> = Vec::new();
        let mut j: usize = 0;
        while j < n
            invariant
                self.wf(),
                n == self.entities@.len(),
                j <= n,
                forall|k: int|
                    0 <= k < ret@.len() ==> {
                        let pr = #[trigger] ret@[k];
                        &&& pr.0 < n
                        &&& pr.1@.len() > 0
                        &&& pr.1@ == touched_dirs_of(self.entities@[pr.0 as int], self.area)
                    },
                forall|m: int|
                    0 <= m < j && touched_dirs_of(#[trigger] self.entities@[m], self.area).len()
                        > 0 ==> (exists|k: int| 0 <= k < ret@.len() && (#[trigger] ret@[k]).0 == m),
                forall|k: int| 0 <= k < ret@.len() ==> (#[trigger] ret@[k]).0 < j,
                forall|k1: int, k2: int|
                    0 <= k1 < k2 < ret@.len() ==> (#[trigger] ret@[k1]).0 < (
                    #[trigger] ret@[k2]).0,
            decreases n - j,
        {
            proof {
                assert(ent_in_range(self.entities@[j as int]));
            }
            let dirs = self.entities[j].get_touched_external_cells(&self.area);
            if dirs.len() > 0 {
                let ghost ret_pre = ret@;
                ret.push((j, dirs));
                proof {
                    assert(ret@[ret_pre.len() as int].0 == j as int);
                    assert forall|k1: int, k2: int|
                        0 <= k1 < k2 < ret@.len() implies (#[trigger] ret@[k1]).0 < (
                    #[trigger] ret@[k2]).0 by {
                        if k2 < ret_pre.len() {
                            assert(ret@[k1] == ret_pre[k1]);
                            assert(ret@[k2] == ret_pre[k2]);
                        } else {
                            assert(ret@[k1] == ret_pre[k1]);
                            assert(ret@[k1].0 < j);
                        }
                    }
                    assert forall|m: int|
                        0 <= m < j + 1 && touched_dirs_of(
                            #[trigger] self.entities@[m],
                            self.area,
                        ).len() > 0 implies (exists|k: int|
                        0 <= k < ret@.len() && (#[trigger] ret@[k]).0 == m) by {
                        if m < j {
                            let k0 = choose|k0: int|
                                0 <= k0 < ret_pre.len() && (#[trigger] ret_pre[k0]).0 == m;
                            assert(ret@[k0] == ret_pre[k0]);
                            assert(ret@[k0].0 == m);
                        } else {
                            assert(ret@[ret_pre.len() as int].0 == m);
                        }
                    }
                }
            }
            j = j + 1;
        }
        ret
    }

    /// Hand a batch of entities to the `quadrant` child, creating it first if
    /// it does not exist yet.
    #[verifier::rlimit(100)]
    #[verifier::spinoff_prover]
    fn move_entities_to_quadrant(&mut self, entities: Vec<Entity>, quadrant: usize)
        requires
            old(self).wf(),
            old(self).scale >= 1,
            quadrant < 8,
            entities@.len() >= 1,
            ents_in_range(entities@),
            tree_ents(*old(self)).len() + entities@.len() <= usize::MAX,
        ensures
            final(self).wf(),
            final(self).scale == old(self).scale,
            final(self).area == old(self).area,
            final(self).entities@ == old(self).entities@,
            forall|j: int|
                0 <= j < 8 && j != quadrant ==> final(self).sub_trees@[j] == old(
                    self,
                ).sub_trees@[j],
            final(self).sub_trees@[quadrant as int] is Some,
            tree_ents(*final(self)).to_multiset() =~= tree_ents(*old(self)).to_multiset().add(
                entities@.to_multiset(),
            ),
            (contained(*old(self)) && all_fit_quadrant(
                entities@,
                old(self).area,
                quadrant as int,
            )) ==> contained(*final(self)),
            no_empty_subtrees(*old(self)) ==> no_empty_subtrees(*final(self)),
            (match old(self).sub_trees@[quadrant as int] {
                None => true,
                Some(c0) => no_empty_subtrees(*c0),
            }) ==> no_empty_subtrees(*final(self).sub_trees@[quadrant as int]->Some_0)
                && !(*final(self).sub_trees@[quadrant as int]->Some_0).spec_is_empty(),
        decreases old(self).scale, 0int,
    {
        let ghost t0 = *old(self);
        let qi = quadrant;
        proof {
            lemma_wf_children_iff(t0.sub_trees@, t0.scale, t0.area, 0);
            lemma_contained_children_iff(t0.sub_trees@, 0);
            lemma_no_empty_children_iff(t0.sub_trees@, 0);
        }
        let ghost created = t0.sub_trees@[qi as int] is None;
        if self.sub_trees[qi].is_none() {
            let c = self.new_sub_tree(qi);
            let ghost c0 = c;
            self.sub_trees[qi] = Some(Box::new(c));
            proof {
                assert(self.sub_trees@ =~= t0.sub_trees@.update(
                    qi as int,
                    self.sub_trees@[qi as int],
                ));
                assert(*self.sub_trees@[qi as int]->Some_0 == c0);
                lemma_children_ents_update(t0.sub_trees@, qi as int, self.sub_trees@[qi as int], 0);
                assert(tree_ents(c0).to_multiset().len() == 0);
                assert(opt_ents(self.sub_trees@[qi as int]).to_multiset() =~= Multiset::empty());
                assert(opt_ents(t0.sub_trees@[qi as int]).to_multiset() =~= Multiset::empty());
                assert(children_ents(self.sub_trees@, 0).to_multiset().add(
                    opt_ents(t0.sub_trees@[qi as int]).to_multiset(),
                ) =~= children_ents(self.sub_trees@, 0).to_multiset().add(Multiset::empty()));
                assert(children_ents(t0.sub_trees@, 0).to_multiset().add(
                    opt_ents(self.sub_trees@[qi as int]).to_multiset(),
                ) =~= children_ents(t0.sub_trees@, 0).to_multiset().add(Multiset::empty()));
                lemma_ms_cancel_common(
                    children_ents(self.sub_trees@, 0).to_multiset(),
                    children_ents(t0.sub_trees@, 0).to_multiset(),
                    Multiset::empty(),
                );
                assert(children_ents(self.sub_trees@, 0).to_multiset() =~= children_ents(
                    t0.sub_trees@,
                    0,
                ).to_multiset());
                assert(contained_opt(self.sub_trees@[qi as int]));
                assert(no_empty_subtrees(*self.sub_trees@[qi as int]->Some_0));
                assert(child_ok(self.sub_trees@[qi as int], t0.scale, t0.area, qi as int));
            }
        }
        let ghost s1 = self.sub_trees@;
        proof {
            if !created {
                assert(s1 == t0.sub_trees@);
                assert(child_ok(s1[qi as int], t0.scale, t0.area, qi as int));
            }
            assert forall|j: int| 0 <= j < 8 implies child_ok(
                #[trigger] s1[j],
                t0.scale,
                t0.area,
                j,
            ) by {
                if j != qi || !created {
                    assert(s1[j] == t0.sub_trees@[j]);
                }
            }
            // entity totals are unchanged so far
            assert(children_ents(s1, 0).to_multiset() =~= children_ents(
                t0.sub_trees@,
                0,
            ).to_multiset());
            assert(tree_ents(t0).to_multiset() =~= t0.entities@.to_multiset().add(
                children_ents(t0.sub_trees@, 0).to_multiset(),
            ));
        }
        let mut child_opt = self.sub_trees[qi].take();
        let mut child = child_opt.unwrap();
        let ghost child0 = *child;
        let ghost s2 = self.sub_trees@;
        proof {
            assert(s2 =~= s1.update(qi as int, None));
            assert(child0.wf());
            // containment and occupancy facts about the child we descend into
            if contained(t0) && !created {
                assert(contained_opt(t0.sub_trees@[qi as int]));
                assert(contained(child0));
            }
            if created {
                assert(contained(child0));
                assert(no_empty_subtrees(child0));
            }
            if no_empty_subtrees(t0) && !created {
                assert(no_empty_opt(t0.sub_trees@[qi as int]));
                assert(no_empty_subtrees(child0));
            }
            // the child's entity total is bounded by the whole tree's
            lemma_children_ents_update(s1, qi as int, None, 0);
            assert(opt_ents(s1[qi as int]) == tree_ents(child0));
            assert(children_ents(s1, 0).to_multiset() =~= children_ents(s2, 0).to_multiset().add(
                tree_ents(child0).to_multiset(),
            ));
            assert(tree_ents(child0).len() == tree_ents(child0).to_multiset().len());
            assert(tree_ents(t0).to_multiset().len() == tree_ents(t0).len());
            assert(tree_ents(child0).len() + entities@.len() <= usize::MAX);
            if contained(t0) && all_fit_quadrant(entities@, t0.area, qi as int) {
                assert forall|k: int| 0 <= k < entities@.len() implies admissible(
                    #[trigger] entities@[k],
                    child0.scale,
                    child0.area,
                ) by {
                    let e = entities@[k];
                    assert(classify(e.bounding_sphere, t0.area) == CellPart::Quadrant(
                        Quadrant::spec_from_idx(qi as int),
                    ));
                    let ff = first_fitting_quadrant(
                        rel_x(e.bounding_sphere, t0.area),
                        rel_y(e.bounding_sphere, t0.area),
                        rel_z(e.bounding_sphere, t0.area),
                        e.bounding_sphere.radius as int,
                        t0.area.size as int,
                        0,
                    );
                    assert(ff is Some);
                    let q0 = ff->Some_0;
                    lemma_first_fitting_fits(
                        rel_x(e.bounding_sphere, t0.area),
                        rel_y(e.bounding_sphere, t0.area),
                        rel_z(e.bounding_sphere, t0.area),
                        e.bounding_sphere.radius as int,
                        t0.area.size as int,
                        0,
                        q0,
                    );
                    crate::geometry::lemma_quadrant_idx_from_idx(q0);
                    crate::geometry::lemma_quadrant_idx_from_idx(qi as int);
                    assert(q0 == qi as int);
                    lemma_quadrant_fit_to_child(e.bounding_sphere, t0.scale, t0.area, qi as int);
                    assert(snug(e.bounding_sphere, child0.area));
                }
            }
        }
        child.add_entities(entities);
        self.sub_trees[qi] = Some(child);
        proof {
            let ghost s3 = self.sub_trees@;
            let ghost child1 = *s3[qi as int]->Some_0;
            assert(s3 =~= s2.update(qi as int, s3[qi as int]));
            lemma_children_ents_update(s2, qi as int, s3[qi as int], 0);
            assert(opt_ents(s2[qi as int]).to_multiset() =~= Multiset::empty());
            assert(children_ents(s3, 0).to_multiset() =~= children_ents(s2, 0).to_multiset().add(
                tree_ents(child1).to_multiset(),
            ));
            // well-formedness of the reassembled row
            assert forall|j: int| 0 <= j < 8 implies child_ok(
                #[trigger] s3[j],
                self.scale,
                self.area,
                j,
            ) by {
                if j != qi {
                    assert(s3[j] == s1[j]);
                }
            }
            lemma_wf_children_iff(s3, self.scale, self.area, 0);
            // conservation
            assert(tree_ents(child1).to_multiset() =~= tree_ents(child0).to_multiset().add(
                entities@.to_multiset(),
            ));
            assert(tree_ents(*self).to_multiset() =~= tree_ents(t0).to_multiset().add(
                entities@.to_multiset(),
            ));
            // containment
            if contained(t0) && all_fit_quadrant(entities@, t0.area, qi as int) {
                assert(contained(child1));
                assert forall|j: int| 0 <= j < 8 implies contained_opt(#[trigger] s3[j]) by {
                    if j != qi {
                        assert(s3[j] == t0.sub_trees@[j]);
                        assert(contained_opt(t0.sub_trees@[j]));
                    }
                }
                lemma_contained_children_iff(s3, 0);
                assert(contained(*self));
            }
            // no empty subtrees, slot-wise and tree-wide
            if match t0.sub_trees@[qi as int] {
                None => true,
                Some(c0) => no_empty_subtrees(*c0),
            } {
                if !created {
                    assert(child0 == *t0.sub_trees@[qi as int]->Some_0);
                }
                assert(no_empty_subtrees(child0));
                assert(no_empty_subtrees(child1));
                assert(!child1.spec_is_empty());
            }
            if no_empty_subtrees(t0) {
                lemma_no_empty_children_iff(t0.sub_trees@, 0);
                assert(no_empty_subtrees(child1));
                assert(!child1.spec_is_empty());
                assert forall|j: int| 0 <= j < 8 implies no_empty_opt(#[trigger] s3[j]) by {
                    if j != qi {
                        assert(s3[j] == t0.sub_trees@[j]);
                        assert(no_empty_opt(t0.sub_trees@[j]));
                    }
                }
                lemma_no_empty_children_iff(s3, 0);
            }
        }
    }
}

} // verus!
