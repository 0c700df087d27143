//! Integer geometry kernel: 3-vectors, octants, neighbor directions, spheres
//! and axis-aligned cubes, with the containment predicates the trees rely on.

use vstd::prelude::*;

verus! {

/// Truncating integer division (rounding toward zero), the semantics of Rust's
/// `/` operator on signed integers.
pub open spec fn div_trunc(a: int, b: int) -> int {
    if a == 0 {
        0
    } else if a > 0 && b > 0 {
        a / b
    } else if a < 0 && b < 0 {
        (a * -1) / (b * -1)
    } else if a < 0 {
        ((a * -1) / b) * -1
    } else {
        (a / (b * -1)) * -1
    }
}

/// Truncating division on machine integers, used wherever the kernel divides
/// quantities that may be negative.
pub fn div_i64(a: i64, b: i64) -> (r: i64)
    requires
        b != 0,
        !(a == i64::MIN && b == -1),
    ensures
        r == div_trunc(a as int, b as int),
{
    proof {
        lemma_div_trunc_fits(a as int, b as int);
    }
    a.checked_div(b).unwrap()
}

/// A signed integer triple. Every position, velocity and force accumulator in
/// the simulation is one of these; partitioning must stay exact, which rules
/// out any floating-point coordinate.
#[derive(Clone, Copy, PartialEq, Eq, Structural, Debug)]
pub struct Vec3 {
    pub x: i64,
    pub y: i64,
    pub z: i64,
}

impl Vec3 {
    pub open spec fn spec_add(self, other: Vec3) -> Vec3 {
        Vec3 { x: (self.x + other.x) as i64, y: (self.y + other.y) as i64, z: (self.z + other.z) as i64 }
    }

    pub fn zero() -> (r: Vec3)
        ensures
            r == (Vec3 { x: 0i64, y: 0i64, z: 0i64 }),
    {
        Vec3 { x: 0, y: 0, z: 0 }
    }

    pub fn add(&self, other: &Vec3) -> (r: Vec3)
        requires
            i64::MIN <= self.x + other.x <= i64::MAX,
            i64::MIN <= self.y + other.y <= i64::MAX,
            i64::MIN <= self.z + other.z <= i64::MAX,
        ensures
            r == self.spec_add(*other),
            r.x == self.x + other.x,
            r.y == self.y + other.y,
            r.z == self.z + other.z,
    {
        Vec3 { x: self.x + other.x, y: self.y + other.y, z: self.z + other.z }
    }

    pub fn sub(&self, other: &Vec3) -> (r: Vec3)
        requires
            i64::MIN <= self.x - other.x <= i64::MAX,
            i64::MIN <= self.y - other.y <= i64::MAX,
            i64::MIN <= self.z - other.z <= i64::MAX,
        ensures
            r.x == self.x - other.x,
            r.y == self.y - other.y,
            r.z == self.z - other.z,
    {
        Vec3 { x: self.x - other.x, y: self.y - other.y, z: self.z - other.z }
    }

    pub fn mul_scalar(&self, v: i64) -> (r: Vec3)
        requires
            i64::MIN <= self.x * v <= i64::MAX,
            i64::MIN <= self.y * v <= i64::MAX,
            i64::MIN <= self.z * v <= i64::MAX,
        ensures
            r.x == self.x * v,
            r.y == self.y * v,
            r.z == self.z * v,
    {
        Vec3 { x: self.x * v, y: self.y * v, z: self.z * v }
    }

    pub fn div_scalar(&self, v: i64) -> (r: Vec3)
        requires
            v != 0,
            self.x != i64::MIN || v != -1,
            self.y != i64::MIN || v != -1,
            self.z != i64::MIN || v != -1,
        ensures
            r.x == div_trunc(self.x as int, v as int),
            r.y == div_trunc(self.y as int, v as int),
            r.z == div_trunc(self.z as int, v as int),
    {
        Vec3 { x: div_i64(self.x, v), y: div_i64(self.y, v), z: div_i64(self.z, v) }
    }
}

/// The magnitude of a truncated quotient never exceeds the magnitude of the
/// dividend.
pub proof fn lemma_div_trunc_bounds(a: int, b: int)
    requires
        b != 0,
    ensures
        a >= 0 ==> -a <= div_trunc(a, b) <= a,
        a < 0 ==> a <= div_trunc(a, b) <= a * -1,
{
    if a > 0 && b > 0 {
        lemma_nonneg_div_le(a, b);
    } else if a > 0 && b < 0 {
        lemma_nonneg_div_le(a, b * -1);
    } else if a < 0 && b > 0 {
        lemma_nonneg_div_le(a * -1, b);
    } else if a < 0 && b < 0 {
        lemma_nonneg_div_le(a * -1, b * -1);
    }
}

/// Outside the one overflowing case (`i64::MIN / -1`), a truncated quotient of
/// two `i64` values fits in an `i64`.
pub proof fn lemma_div_trunc_fits(a: int, b: int)
    requires
        i64::MIN <= a <= i64::MAX,
        i64::MIN <= b <= i64::MAX,
        b != 0,
        !(a == i64::MIN && b == -1),
    ensures
        i64::MIN <= div_trunc(a, b) <= i64::MAX,
{
    lemma_div_trunc_bounds(a, b);
    if a == i64::MIN && b <= -2 {
        // div_trunc(a, b) == (-a) / (-b) <= (-a) / 2 <= i64::MAX
        lemma_nonneg_div_le(a * -1, b * -1);
        vstd::arithmetic::div_mod::lemma_div_is_ordered_by_denominator(a * -1, 2, b * -1);
        assert((a * -1) / 2 == 0x4000_0000_0000_0000int);
    }
}

proof fn lemma_nonneg_div_le(a: int, b: int)
    requires
        a >= 0,
        b >= 1,
    ensures
        0 <= a / b <= a,
{
    vstd::arithmetic::div_mod::lemma_div_is_ordered_by_denominator(a, 1, b);
    vstd::arithmetic::div_mod::lemma_div_basics(a);
    vstd::arithmetic::div_mod::lemma_div_pos_is_pos(a, b);
}

/// Whether each coordinate lies in the half-open band `[-side/2, side/2 - 1]`
/// (divisions truncating). The upper face of a cell is excluded so that every
/// point belongs to exactly one cell at each scale.
pub open spec fn in_centered_cube_xyz(x: int, y: int, z: int, side: int) -> bool {
    let lo = div_trunc(-side, 2);
    let hi = div_trunc(side, 2) - 1;
    lo <= x <= hi && lo <= y <= hi && lo <= z <= hi
}

pub open spec fn in_centered_cube(v: Vec3, side: int) -> bool {
    in_centered_cube_xyz(v.x as int, v.y as int, v.z as int, side)
}

impl Vec3 {
    pub fn is_inside_centered_cube(&self, side_length: i64) -> (r: bool)
        requires
            side_length > i64::MIN,
        ensures
            r == in_centered_cube(*self, side_length as int),
    {
        let min = div_i64(-side_length, 2);
        let max = div_i64(side_length, 2) - 1;
        proof {
            lemma_div_trunc_bounds(side_length as int, 2);
            lemma_div_trunc_bounds(-side_length as int, 2);
        }
        (self.x >= min && self.x <= max) && (self.y >= min && self.y <= max) && (self.z >= min
            && self.z <= max)
    }

    pub fn get_quadrant(&self) -> (q: Quadrant)
        ensures
            q == quadrant_of_pos(*self),
    {
        Quadrant::from_pos(self)
    }

    /// The axis directions in which this vector points, in x, y, z order.
    pub fn direction_components(&self) -> (r: Vec<Direction>)
        ensures
            r@ == dir_components(*self),
    {
        let mut ret: Vec<Direction> = Vec::new();
        if self.x > 0 {
            ret.push(Direction::Xp);
        } else if self.x < 0 {
            ret.push(Direction::Xn);
        }
        if self.y > 0 {
            ret.push(Direction::Yp);
        } else if self.y < 0 {
            ret.push(Direction::Yn);
        }
        if self.z > 0 {
            ret.push(Direction::Zp);
        } else if self.z < 0 {
            ret.push(Direction::Zn);
        }
        proof {
            assert(ret@ =~= dir_components(*self));
        }
        ret
    }

    /// Zero out each component whose sign agrees with the quadrant's sign on
    /// that axis, leaving the components the quadrant does not account for.
    pub fn remove_matching_quadrant_component(&self, quadrant: Quadrant) -> (r: Vec3)
        ensures
            r.x == strip_axis(self.x as int, quadrant.spec_x_p()),
            r.y == strip_axis(self.y as int, quadrant.spec_y_p()),
            r.z == strip_axis(self.z as int, quadrant.spec_z_p()),
    {
        let mut ret = *self;
        let quad_x_pos = quadrant.x_p();
        if (quad_x_pos && self.x > 0) || (!quad_x_pos && self.x < 0) {
            ret.x = 0;
        }
        let quad_y_pos = quadrant.y_p();
        if (quad_y_pos && self.y > 0) || (!quad_y_pos && self.y < 0) {
            ret.y = 0;
        }
        let quad_z_pos = quadrant.z_p();
        if (quad_z_pos && self.z > 0) || (!quad_z_pos && self.z < 0) {
            ret.z = 0;
        }
        ret
    }
}

/// A component is "accounted for" by a quadrant when its sign matches the
/// quadrant's sign bit on that axis; such components are reset to zero.
pub open spec fn strip_axis(val: int, positive: bool) -> int {
    if (positive && val > 0) || (!positive && val < 0) {
        0
    } else {
        val
    }
}

pub open spec fn dir_components(v: Vec3) -> Seq<Direction> {
    (if v.x > 0 {
        seq![Direction::Xp]
    } else if v.x < 0 {
        seq![Direction::Xn]
    } else {
        Seq::empty()
    }) + (if v.y > 0 {
        seq![Direction::Yp]
    } else if v.y < 0 {
        seq![Direction::Yn]
    } else {
        Seq::empty()
    }) + (if v.z > 0 {
        seq![Direction::Zp]
    } else if v.z < 0 {
        seq![Direction::Zn]
    } else {
        Seq::empty()
    })
}

/// A 3x3 integer matrix with a common divider, dividing after each
/// matrix-vector product so that rotations can be expressed in fixed point.
#[derive(Clone, Copy, PartialEq, Eq, Debug)]
pub struct Mat3 {
    pub divider: i64,
    pub values: [i64; 9],
}

impl Mat3 {
    pub fn identity() -> (r: Mat3)
        ensures
            r.divider == 1,
            r.values@ =~= seq![1i64, 0i64, 0i64, 0i64, 1i64, 0i64, 0i64, 0i64, 1i64],
    {
        Mat3 { divider: 1, values: [1, 0, 0, 0, 1, 0, 0, 0, 1] }
    }

    pub open spec fn row_sum(&self, vec: Vec3, row: int) -> int {
        vec.x * self.values[3 * row] + vec.y * self.values[3 * row + 1] + vec.z * self.values[3
            * row + 2]
    }

    /// One term of a row's product.
    pub open spec fn term(&self, vec: Vec3, row: int, col: int) -> int {
        (if col == 0 {
            vec.x as int
        } else if col == 1 {
            vec.y as int
        } else {
            vec.z as int
        }) * self.values[3 * row + col]
    }

    /// The leading terms of a row's product, as the multiplication computes
    /// them; the overflow conditions speak of these partial sums.
    pub open spec fn row_partial(&self, vec: Vec3, row: int, terms: int) -> int {
        if terms <= 1 {
            self.term(vec, row, 0)
        } else if terms == 2 {
            self.term(vec, row, 0) + self.term(vec, row, 1)
        } else {
            self.term(vec, row, 0) + self.term(vec, row, 1) + self.term(vec, row, 2)
        }
    }

    pub fn mul_vec(&self, vec: &Vec3) -> (r: Vec3)
        requires
            self.divider != 0,
            forall|row: int, col: int|
                0 <= row < 3 && 0 <= col < 3 ==> i64::MIN <= #[trigger] self.term(*vec, row, col)
                    <= i64::MAX,
            forall|row: int, terms: int|
                0 <= row < 3 && 1 <= terms <= 3 ==> i64::MIN <= #[trigger] self.row_partial(
                    *vec,
                    row,
                    terms,
                ) <= i64::MAX,
            forall|row: int|
                0 <= row < 3 ==> !(#[trigger] self.row_sum(*vec, row) == i64::MIN && self.divider
                    == -1),
        ensures
            r.x == div_trunc(self.row_sum(*vec, 0), self.divider as int),
            r.y == div_trunc(self.row_sum(*vec, 1), self.divider as int),
            r.z == div_trunc(self.row_sum(*vec, 2), self.divider as int),
    {
        proof {
            assert(self.term(*vec, 0, 0) == vec.x * self.values[0]);
            assert(self.term(*vec, 0, 1) == vec.y * self.values[1]);
            assert(self.term(*vec, 0, 2) == vec.z * self.values[2]);
            assert(self.term(*vec, 1, 0) == vec.x * self.values[3]);
            assert(self.term(*vec, 1, 1) == vec.y * self.values[4]);
            assert(self.term(*vec, 1, 2) == vec.z * self.values[5]);
            assert(self.term(*vec, 2, 0) == vec.x * self.values[6]);
            assert(self.term(*vec, 2, 1) == vec.y * self.values[7]);
            assert(self.term(*vec, 2, 2) == vec.z * self.values[8]);
            assert(self.row_partial(*vec, 0, 2) == vec.x * self.values[0] + vec.y * self.values[1]);
            assert(self.row_partial(*vec, 1, 2) == vec.x * self.values[3] + vec.y * self.values[4]);
            assert(self.row_partial(*vec, 2, 2) == vec.x * self.values[6] + vec.y * self.values[7]);
            assert(self.row_partial(*vec, 0, 3) == self.row_sum(*vec, 0));
            assert(self.row_partial(*vec, 1, 3) == self.row_sum(*vec, 1));
            assert(self.row_partial(*vec, 2, 3) == self.row_sum(*vec, 2));
        }
        let x = vec.x * self.values[0] + vec.y * self.values[1] + vec.z * self.values[2];
        let y = vec.x * self.values[3] + vec.y * self.values[4] + vec.z * self.values[5];
        let z = vec.x * self.values[6] + vec.y * self.values[7] + vec.z * self.values[8];
        Vec3 {
            x: div_i64(x, self.divider),
            y: div_i64(y, self.divider),
            z: div_i64(z, self.divider),
        }
    }
}

/// One of the six axis directions.
#[derive(Clone, Copy, PartialEq, Eq, Structural, Debug)]
pub enum Direction {
    Xp,
    Yp,
    Zp,
    Xn,
    Yn,
    Zn,
}

pub const NB_DIRECTIONS: usize = 6;

impl Direction {
    pub open spec fn idx(self) -> int {
        match self {
            Direction::Xp => 0,
            Direction::Yp => 1,
            Direction::Zp => 2,
            Direction::Xn => 3,
            Direction::Yn => 4,
            Direction::Zn => 5,
        }
    }

    pub fn to_index(&self) -> (r: usize)
        ensures
            r == self.idx(),
    {
        match self {
            Direction::Xp => 0,
            Direction::Yp => 1,
            Direction::Zp => 2,
            Direction::Xn => 3,
            Direction::Yn => 4,
            Direction::Zn => 5,
        }
    }
}

/// One of the eight octants of an axis-aligned cube, named by the sign of each
/// axis (`n` negative, `p` positive). Listed in the order of the 3-bit code
/// `4*x + 2*y + z` with a set bit meaning positive.
#[derive(Clone, Copy, PartialEq, Eq, Structural, Debug)]
pub enum Quadrant {
    XnYnZn,
    XnYnZp,
    XnYpZn,
    XnYpZp,
    XpYnZn,
    XpYnZp,
    XpYpZn,
    XpYpZp,
}

pub const NB_QUADRANTS: usize = 8;

/// The quadrant whose sign bits are the three given flags.
pub open spec fn quadrant_from_signs(xp: bool, yp: bool, zp: bool) -> Quadrant {
    if xp {
        if yp {
            if zp {
                Quadrant::XpYpZp
            } else {
                Quadrant::XpYpZn
            }
        } else {
            if zp {
                Quadrant::XpYnZp
            } else {
                Quadrant::XpYnZn
            }
        }
    } else {
        if yp {
            if zp {
                Quadrant::XnYpZp
            } else {
                Quadrant::XnYpZn
            }
        } else {
            if zp {
                Quadrant::XnYnZp
            } else {
                Quadrant::XnYnZn
            }
        }
    }
}

/// The quadrant a point falls in: a non-negative coordinate counts as
/// positive, so points on an axis plane go to the positive side.
pub open spec fn quadrant_of_pos(v: Vec3) -> Quadrant {
    quadrant_from_signs(v.x >= 0, v.y >= 0, v.z >= 0)
}

impl Quadrant {
    pub open spec fn spec_x_p(self) -> bool {
        match self {
            Quadrant::XpYnZn | Quadrant::XpYnZp | Quadrant::XpYpZn | Quadrant::XpYpZp => true,
            _ => false,
        }
    }

    pub open spec fn spec_y_p(self) -> bool {
        match self {
            Quadrant::XnYpZn | Quadrant::XnYpZp | Quadrant::XpYpZn | Quadrant::XpYpZp => true,
            _ => false,
        }
    }

    pub open spec fn spec_z_p(self) -> bool {
        match self {
            Quadrant::XnYnZp | Quadrant::XnYpZp | Quadrant::XpYnZp | Quadrant::XpYpZp => true,
            _ => false,
        }
    }

    /// The 3-bit code of the quadrant.
    pub open spec fn idx(self) -> int {
        (if self.spec_x_p() {
            4int
        } else {
            0int
        }) + (if self.spec_y_p() {
            2int
        } else {
            0int
        }) + (if self.spec_z_p() {
            1int
        } else {
            0int
        })
    }

    pub open spec fn spec_from_idx(i: int) -> Quadrant {
        quadrant_from_signs(i >= 4, i % 4 >= 2, i % 2 == 1)
    }

    pub fn x_p(&self) -> (r: bool)
        ensures
            r == self.spec_x_p(),
    {
        match self {
            Quadrant::XpYnZn | Quadrant::XpYnZp | Quadrant::XpYpZn | Quadrant::XpYpZp => true,
            _ => false,
        }
    }

    pub fn y_p(&self) -> (r: bool)
        ensures
            r == self.spec_y_p(),
    {
        match self {
            Quadrant::XnYpZn | Quadrant::XnYpZp | Quadrant::XpYpZn | Quadrant::XpYpZp => true,
            _ => false,
        }
    }

    pub fn z_p(&self) -> (r: bool)
        ensures
            r == self.spec_z_p(),
    {
        match self {
            Quadrant::XnYnZp | Quadrant::XnYpZp | Quadrant::XpYnZp | Quadrant::XpYpZp => true,
            _ => false,
        }
    }

    pub fn from_signs(xp: bool, yp: bool, zp: bool) -> (q: Quadrant)
        ensures
            q == quadrant_from_signs(xp, yp, zp),
            q.spec_x_p() == xp,
            q.spec_y_p() == yp,
            q.spec_z_p() == zp,
    {
        if xp {
            if yp {
                if zp {
                    Quadrant::XpYpZp
                } else {
                    Quadrant::XpYpZn
                }
            } else {
                if zp {
                    Quadrant::XpYnZp
                } else {
                    Quadrant::XpYnZn
                }
            }
        } else {
            if yp {
                if zp {
                    Quadrant::XnYpZp
                } else {
                    Quadrant::XnYpZn
                }
            } else {
                if zp {
                    Quadrant::XnYnZp
                } else {
                    Quadrant::XnYnZn
                }
            }
        }
    }

    pub fn to_index(&self) -> (r: usize)
        ensures
            r == self.idx(),
            r < 8,
    {
        match self {
            Quadrant::XnYnZn => 0,
            Quadrant::XnYnZp => 1,
            Quadrant::XnYpZn => 2,
            Quadrant::XnYpZp => 3,
            Quadrant::XpYnZn => 4,
            Quadrant::XpYnZp => 5,
            Quadrant::XpYpZn => 6,
            Quadrant::XpYpZp => 7,
        }
    }

    pub fn from_index(i: usize) -> (q: Quadrant)
        requires
            i < 8,
        ensures
            q == Quadrant::spec_from_idx(i as int),
            q.idx() == i,
    {
        let q = Quadrant::from_signs(i >= 4, i % 4 >= 2, i % 2 == 1);
        proof {
            lemma_quadrant_idx_from_idx(i as int);
        }
        q
    }

    pub fn from_pos(pos: &Vec3) -> (q: Quadrant)
        ensures
            q == quadrant_of_pos(*pos),
    {
        Quadrant::from_signs(pos.x >= 0, pos.y >= 0, pos.z >= 0)
    }

    pub open spec fn spec_invert(self) -> Quadrant {
        quadrant_from_signs(!self.spec_x_p(), !self.spec_y_p(), !self.spec_z_p())
    }

    /// The opposite octant: all three sign bits negated.
    pub fn invert(&self) -> (q: Quadrant)
        ensures
            q == self.spec_invert(),
    {
        Quadrant::from_signs(!self.x_p(), !self.y_p(), !self.z_p())
    }

    pub open spec fn spec_mirror(self, direction: Vec3) -> Quadrant {
        quadrant_from_signs(
            self.spec_x_p() ^ (direction.x != 0),
            self.spec_y_p() ^ (direction.y != 0),
            self.spec_z_p() ^ (direction.z != 0),
        )
    }

    /// Flip the sign bit on each axis where `direction` is nonzero: the octant
    /// a former root occupies in a parent freshly grown toward `direction`.
    pub fn mirror(&self, direction: Vec3) -> (q: Quadrant)
        ensures
            q == self.spec_mirror(direction),
    {
        Quadrant::from_signs(
            self.x_p() ^ (direction.x != 0),
            self.y_p() ^ (direction.y != 0),
            self.z_p() ^ (direction.z != 0),
        )
    }

    pub open spec fn spec_move_to(self, direction: Vec3) -> Option<Quadrant> {
        let x = (if self.spec_x_p() {
            1int
        } else {
            0int
        }) + direction.x;
        let y = (if self.spec_y_p() {
            1int
        } else {
            0int
        }) + direction.y;
        let z = (if self.spec_z_p() {
            1int
        } else {
            0int
        }) + direction.z;
        if x > 1 || y > 1 || z > 1 || x < 0 || y < 0 || z < 0 {
            None
        } else {
            Some(quadrant_from_signs(x == 1, y == 1, z == 1))
        }
    }

    /// The sibling octant reached by stepping one cell along each nonzero axis
    /// of `direction`, or `None` when the step leaves the 2x2x2 octant cube.
    pub fn move_to(&self, direction: Vec3) -> (r: Option<Quadrant>)
        requires
            -1 <= direction.x <= 1,
            -1 <= direction.y <= 1,
            -1 <= direction.z <= 1,
        ensures
            r == self.spec_move_to(direction),
    {
        let x = (if self.x_p() {
            1i64
        } else {
            0i64
        }) + direction.x;
        let y = (if self.y_p() {
            1i64
        } else {
            0i64
        }) + direction.y;
        let z = (if self.z_p() {
            1i64
        } else {
            0i64
        }) + direction.z;
        if x > 1 || y > 1 || z > 1 || x < 0 || y < 0 || z < 0 {
            None
        } else {
            Some(Quadrant::from_signs(x == 1, y == 1, z == 1))
        }
    }

    pub open spec fn spec_match_direction(self, direction: Vec3) -> bool {
        let x = (self.spec_x_p() && direction.x >= 0) || (!self.spec_x_p() && direction.x <= 0);
        let y = (self.spec_y_p() && direction.y >= 0) || (!self.spec_y_p() && direction.y <= 0);
        let z = (self.spec_z_p() && direction.z >= 0) || (!self.spec_z_p() && direction.z <= 0);
        x && y && z
    }

    /// Whether the octant's sign agrees with `direction` on every axis where
    /// `direction` is nonzero.
    pub fn match_direction(&self, direction: Vec3) -> (r: bool)
        ensures
            r == self.spec_match_direction(direction),
    {
        let x = (self.x_p() && (direction.x >= 0)) || (!self.x_p() && (direction.x <= 0));
        let y = (self.y_p() && (direction.y >= 0)) || (!self.y_p() && (direction.y <= 0));
        let z = (self.z_p() && (direction.z >= 0)) || (!self.z_p() && (direction.z <= 0));
        x && y && z
    }
}

/// The 3-bit code round-trips with `spec_from_idx`.
pub proof fn lemma_quadrant_idx_from_idx(i: int)
    requires
        0 <= i < 8,
    ensures
        Quadrant::spec_from_idx(i).idx() == i,
{
}

/// A quadrant is recovered from its own 3-bit code.
pub proof fn lemma_quadrant_from_own_idx(q: Quadrant)
    ensures
        Quadrant::spec_from_idx(q.idx()) == q,
{
}

/// Mirroring along the same direction twice returns to the original octant.
pub proof fn lemma_mirror_involution(q: Quadrant, dir: Vec3)
    ensures
        q.spec_mirror(dir).spec_mirror(dir) == q,
{
}

/// Inverting an octant twice returns to the original octant.
pub proof fn lemma_invert_involution(q: Quadrant)
    ensures
        q.spec_invert().spec_invert() == q,
{
}

/// Moving by the zero offset stays in place.
pub proof fn lemma_move_to_zero(q: Quadrant)
    ensures
        q.spec_move_to(Vec3 { x: 0, y: 0, z: 0 }) == Some(q),
{
}

/// One of the 27 neighbor-cell offsets: three choices per axis (`n` negative,
/// `z` zero, `p` positive), coded in base 3 as `9*cx + 3*cy + cz` with
/// component values 0 (negative), 1 (zero), 2 (positive).
#[derive(Clone, Copy, PartialEq, Eq, Structural, Debug)]
pub enum FineDirection {
    XnYnZn,
    XnYnZz,
    XnYnZp,
    XnYzZn,
    XnYzZz,
    XnYzZp,
    XnYpZn,
    XnYpZz,
    XnYpZp,
    XzYnZn,
    XzYnZz,
    XzYnZp,
    XzYzZn,
    XzYzZz,
    XzYzZp,
    XzYpZn,
    XzYpZz,
    XzYpZp,
    XpYnZn,
    XpYnZz,
    XpYnZp,
    XpYzZn,
    XpYzZz,
    XpYzZp,
    XpYpZn,
    XpYpZz,
    XpYpZp,
}

/// Classify one coordinate against a band of half-width `size`: 0 below it,
/// 1 inside it, 2 at or above its upper end.
pub open spec fn spec_component(pos: int, size: int) -> int {
    if pos < -size {
        0
    } else if pos < size {
        1
    } else {
        2
    }
}

/// The fine direction with the given per-axis component values.
pub open spec fn fine_from_components(x: int, y: int, z: int) -> FineDirection {
    if x == 0 {
        if y == 0 {
            if z == 0 { FineDirection::XnYnZn } else if z == 1 { FineDirection::XnYnZz } else { FineDirection::XnYnZp }
        } else if y == 1 {
            if z == 0 { FineDirection::XnYzZn } else if z == 1 { FineDirection::XnYzZz } else { FineDirection::XnYzZp }
        } else {
            if z == 0 { FineDirection::XnYpZn } else if z == 1 { FineDirection::XnYpZz } else { FineDirection::XnYpZp }
        }
    } else if x == 1 {
        if y == 0 {
            if z == 0 { FineDirection::XzYnZn } else if z == 1 { FineDirection::XzYnZz } else { FineDirection::XzYnZp }
        } else if y == 1 {
            if z == 0 { FineDirection::XzYzZn } else if z == 1 { FineDirection::XzYzZz } else { FineDirection::XzYzZp }
        } else {
            if z == 0 { FineDirection::XzYpZn } else if z == 1 { FineDirection::XzYpZz } else { FineDirection::XzYpZp }
        }
    } else {
        if y == 0 {
            if z == 0 { FineDirection::XpYnZn } else if z == 1 { FineDirection::XpYnZz } else { FineDirection::XpYnZp }
        } else if y == 1 {
            if z == 0 { FineDirection::XpYzZn } else if z == 1 { FineDirection::XpYzZz } else { FineDirection::XpYzZp }
        } else {
            if z == 0 { FineDirection::XpYpZn } else if z == 1 { FineDirection::XpYpZz } else { FineDirection::XpYpZp }
        }
    }
}

/// The direction a cell-leaving position points in, one of `{-1,0,1}` per
/// axis, judged against the half-size `size/2` of the owning cell.
pub open spec fn outsider_dir(pos: Vec3, size: int) -> Vec3 {
    Vec3 {
        x: (spec_component(pos.x as int, div_trunc(size, 2)) - 1) as i64,
        y: (spec_component(pos.y as int, div_trunc(size, 2)) - 1) as i64,
        z: (spec_component(pos.z as int, div_trunc(size, 2)) - 1) as i64,
    }
}

impl FineDirection {
    /// The per-axis component values of this fine direction, each in 0..3.
    pub open spec fn components(self) -> (int, int, int) {
        let i = self.idx();
        (i / 9, (i % 9) / 3, i % 3)
    }

    /// The base-3 code of this fine direction.
    pub open spec fn idx(self) -> int {
        match self {
            FineDirection::XnYnZn => 0,
            FineDirection::XnYnZz => 1,
            FineDirection::XnYnZp => 2,
            FineDirection::XnYzZn => 3,
            FineDirection::XnYzZz => 4,
            FineDirection::XnYzZp => 5,
            FineDirection::XnYpZn => 6,
            FineDirection::XnYpZz => 7,
            FineDirection::XnYpZp => 8,
            FineDirection::XzYnZn => 9,
            FineDirection::XzYnZz => 10,
            FineDirection::XzYnZp => 11,
            FineDirection::XzYzZn => 12,
            FineDirection::XzYzZz => 13,
            FineDirection::XzYzZp => 14,
            FineDirection::XzYpZn => 15,
            FineDirection::XzYpZz => 16,
            FineDirection::XzYpZp => 17,
            FineDirection::XpYnZn => 18,
            FineDirection::XpYnZz => 19,
            FineDirection::XpYnZp => 20,
            FineDirection::XpYzZn => 21,
            FineDirection::XpYzZz => 22,
            FineDirection::XpYzZp => 23,
            FineDirection::XpYpZn => 24,
            FineDirection::XpYpZz => 25,
            FineDirection::XpYpZp => 26,
        }
    }

    pub fn to_index(&self) -> (r: usize)
        ensures
            r == self.idx(),
            r < 27,
    {
        match self {
            FineDirection::XnYnZn => 0,
            FineDirection::XnYnZz => 1,
            FineDirection::XnYnZp => 2,
            FineDirection::XnYzZn => 3,
            FineDirection::XnYzZz => 4,
            FineDirection::XnYzZp => 5,
            FineDirection::XnYpZn => 6,
            FineDirection::XnYpZz => 7,
            FineDirection::XnYpZp => 8,
            FineDirection::XzYnZn => 9,
            FineDirection::XzYnZz => 10,
            FineDirection::XzYnZp => 11,
            FineDirection::XzYzZn => 12,
            FineDirection::XzYzZz => 13,
            FineDirection::XzYzZp => 14,
            FineDirection::XzYpZn => 15,
            FineDirection::XzYpZz => 16,
            FineDirection::XzYpZp => 17,
            FineDirection::XpYnZn => 18,
            FineDirection::XpYnZz => 19,
            FineDirection::XpYnZp => 20,
            FineDirection::XpYzZn => 21,
            FineDirection::XpYzZz => 22,
            FineDirection::XpYzZp => 23,
            FineDirection::XpYpZn => 24,
            FineDirection::XpYpZz => 25,
            FineDirection::XpYpZp => 26,
        }
    }

    /// Classify one coordinate against a band of half-width `size`.
    pub fn component(pos: i64, size: i64) -> (r: u8)
        requires
            size > i64::MIN,
        ensures
            r == spec_component(pos as int, size as int),
    {
        if pos < -size {
            0
        } else if pos < size {
            1
        } else {
            2
        }
    }

    pub fn from_components(x: u8, y: u8, z: u8) -> (r: FineDirection)
        requires
            x < 3,
            y < 3,
            z < 3,
        ensures
            r == fine_from_components(x as int, y as int, z as int),
            r.components() == (x as int, y as int, z as int),
    {
        proof {
            lemma_fine_components_round_trip(x as int, y as int, z as int);
        }
        if x == 0 {
            if y == 0 {
                if z == 0 { FineDirection::XnYnZn } else if z == 1 { FineDirection::XnYnZz } else { FineDirection::XnYnZp }
            } else if y == 1 {
                if z == 0 { FineDirection::XnYzZn } else if z == 1 { FineDirection::XnYzZz } else { FineDirection::XnYzZp }
            } else {
                if z == 0 { FineDirection::XnYpZn } else if z == 1 { FineDirection::XnYpZz } else { FineDirection::XnYpZp }
            }
        } else if x == 1 {
            if y == 0 {
                if z == 0 { FineDirection::XzYnZn } else if z == 1 { FineDirection::XzYnZz } else { FineDirection::XzYnZp }
            } else if y == 1 {
                if z == 0 { FineDirection::XzYzZn } else if z == 1 { FineDirection::XzYzZz } else { FineDirection::XzYzZp }
            } else {
                if z == 0 { FineDirection::XzYpZn } else if z == 1 { FineDirection::XzYpZz } else { FineDirection::XzYpZp }
            }
        } else {
            if y == 0 {
                if z == 0 { FineDirection::XpYnZn } else if z == 1 { FineDirection::XpYnZz } else { FineDirection::XpYnZp }
            } else if y == 1 {
                if z == 0 { FineDirection::XpYzZn } else if z == 1 { FineDirection::XpYzZz } else { FineDirection::XpYzZp }
            } else {
                if z == 0 { FineDirection::XpYpZn } else if z == 1 { FineDirection::XpYpZz } else { FineDirection::XpYpZp }
            }
        }
    }

    /// The neighbor offset a position outside a cell of side `size` points to,
    /// judged per axis against the cell's own extent.
    pub fn from_outsider_pos(pos: &Vec3, size: i64) -> (r: FineDirection)
        requires
            size > i64::MIN,
        ensures
            r == fine_from_components(
                spec_component(pos.x as int, size as int),
                spec_component(pos.y as int, size as int),
                spec_component(pos.z as int, size as int),
            ),
    {
        let x = Self::component(pos.x, size);
        let y = Self::component(pos.y, size);
        let z = Self::component(pos.z, size);
        Self::from_components(x, y, z)
    }

    /// The `{-1,0,1}` direction vector of a position that left a cell of side
    /// `size`, judged per axis against the cell's half-size.
    pub fn outsider_direction_vec(pos: &Vec3, size: i64) -> (r: Vec3)
        requires
            size > i64::MIN,
        ensures
            r == outsider_dir(*pos, size as int),
            -1 <= r.x <= 1,
            -1 <= r.y <= 1,
            -1 <= r.z <= 1,
    {
        let half = div_i64(size, 2);
        let x = Self::component(pos.x, half) as i64 - 1;
        let y = Self::component(pos.y, half) as i64 - 1;
        let z = Self::component(pos.z, half) as i64 - 1;
        Vec3 { x, y, z }
    }

    /// The offset as a vector with each axis in `{-1,0,1}`.
    pub fn equivalent_vec(&self) -> (r: Vec3)
        ensures
            r.x == self.components().0 - 1,
            r.y == self.components().1 - 1,
            r.z == self.components().2 - 1,
    {
        let val = self.to_index();
        let x = (val / 9) as i64 - 1;
        let y = ((val % 9) / 3) as i64 - 1;
        let z = (val % 3) as i64 - 1;
        Vec3 { x, y, z }
    }
}

/// Component values survive the round trip through the base-3 code.
pub proof fn lemma_fine_components_round_trip(x: int, y: int, z: int)
    requires
        0 <= x < 3,
        0 <= y < 3,
        0 <= z < 3,
    ensures
        fine_from_components(x, y, z).components() == (x, y, z),
{
}

/// An integer-centered sphere: the coarse bound of every entity.
#[derive(Clone, Copy, PartialEq, Eq, Structural, Debug)]
pub struct Sphere {
    pub center: Vec3,
    pub radius: i64,
}

/// Whether a sphere with center `(x, y, z)` relative to the outer cube's
/// center lies wholly inside the `quadrant`-octant sub-cube of a cube of side
/// `outer_size`: the center, shifted to the octant's own center, must fit in
/// the octant's cube shrunk by the radius.
pub open spec fn sphere_in_quadrant_xyz(
    x: int,
    y: int,
    z: int,
    radius: int,
    outer_size: int,
    quadrant: int,
) -> bool {
    let half = div_trunc(outer_size, 2);
    let quarter = div_trunc(half, 2);
    let sx = if quadrant >= 4 { quarter } else { -quarter };
    let sy = if quadrant % 4 >= 2 { quarter } else { -quarter };
    let sz = if quadrant % 2 == 1 { quarter } else { -quarter };
    in_centered_cube_xyz(x - sx, y - sy, z - sz, half - radius)
}

pub open spec fn sphere_in_quadrant(s: Sphere, outer_size: int, quadrant: int) -> bool {
    sphere_in_quadrant_xyz(
        s.center.x as int,
        s.center.y as int,
        s.center.z as int,
        s.radius as int,
        outer_size,
        quadrant,
    )
}

/// Whether two spheres overlap: the Euclidean distance between the centers is
/// less than the sum of the radii, stated over the squares so that the
/// comparison is exact in integers.
pub open spec fn spheres_intersect(a: Sphere, b: Sphere) -> bool {
    let dx = a.center.x - b.center.x;
    let dy = a.center.y - b.center.y;
    let dz = a.center.z - b.center.z;
    let rs = a.radius + b.radius;
    dx * dx + dy * dy + dz * dz < rs * rs
}

impl Sphere {
    pub fn div_scalar(&self, value: i64) -> (r: Sphere)
        requires
            value != 0,
            !(self.radius == i64::MIN && value == -1),
        ensures
            r.center == self.center,
            r.radius == div_trunc(self.radius as int, value as int),
    {
        Sphere { center: self.center, radius: div_i64(self.radius, value) }
    }

    pub fn add_to_center(&self, v: &Vec3) -> (r: Sphere)
        requires
            i64::MIN <= self.center.x + v.x <= i64::MAX,
            i64::MIN <= self.center.y + v.y <= i64::MAX,
            i64::MIN <= self.center.z + v.z <= i64::MAX,
        ensures
            r.center.x == self.center.x + v.x,
            r.center.y == self.center.y + v.y,
            r.center.z == self.center.z + v.z,
            r.radius == self.radius,
    {
        Sphere { center: self.center.add(v), radius: self.radius }
    }

    pub fn sub_to_center(&self, v: &Vec3) -> (r: Sphere)
        requires
            i64::MIN <= self.center.x - v.x <= i64::MAX,
            i64::MIN <= self.center.y - v.y <= i64::MAX,
            i64::MIN <= self.center.z - v.z <= i64::MAX,
        ensures
            r.center.x == self.center.x - v.x,
            r.center.y == self.center.y - v.y,
            r.center.z == self.center.z - v.z,
            r.radius == self.radius,
    {
        Sphere { center: self.center.sub(v), radius: self.radius }
    }

    pub fn move_by(&mut self, shift: &Vec3)
        requires
            i64::MIN <= old(self).center.x + shift.x <= i64::MAX,
            i64::MIN <= old(self).center.y + shift.y <= i64::MAX,
            i64::MIN <= old(self).center.z + shift.z <= i64::MAX,
        ensures
            final(self).center.x == old(self).center.x + shift.x,
            final(self).center.y == old(self).center.y + shift.y,
            final(self).center.z == old(self).center.z + shift.z,
            final(self).radius == old(self).radius,
    {
        self.center = self.center.add(shift);
    }

    pub fn is_inside_quadrant(&self, outer_size: i64, quadrant: usize) -> (r: bool)
        requires
            quadrant < 8,
            0 <= outer_size,
            self.radius >= 0,
            i64::MIN + outer_size <= self.center.x <= i64::MAX - outer_size,
            i64::MIN + outer_size <= self.center.y <= i64::MAX - outer_size,
            i64::MIN + outer_size <= self.center.z <= i64::MAX - outer_size,
        ensures
            r == sphere_in_quadrant(*self, outer_size as int, quadrant as int),
    {
        proof {
            lemma_div_trunc_bounds(outer_size as int, 2);
            lemma_div_trunc_bounds(div_trunc(outer_size as int, 2), 2);
        }
        let half_size = div_i64(outer_size, 2);
        let quarter_size = div_i64(half_size, 2);
        let sx = if quadrant >= 4 { quarter_size } else { -quarter_size };
        let sy = if quadrant % 4 >= 2 { quarter_size } else { -quarter_size };
        let sz = if quadrant % 2 == 1 { quarter_size } else { -quarter_size };
        let shifted_center = Vec3 {
            x: self.center.x - sx,
            y: self.center.y - sy,
            z: self.center.z - sz,
        };
        shifted_center.is_inside_centered_cube(half_size - self.radius)
    }

    pub fn intersects(&self, other: &Sphere) -> (r: bool)
        requires
            self.radius >= 0,
            other.radius >= 0,
            -0x4000_0000_0000_0000 <= self.center.x <= 0x4000_0000_0000_0000,
            -0x4000_0000_0000_0000 <= self.center.y <= 0x4000_0000_0000_0000,
            -0x4000_0000_0000_0000 <= self.center.z <= 0x4000_0000_0000_0000,
            -0x4000_0000_0000_0000 <= other.center.x <= 0x4000_0000_0000_0000,
            -0x4000_0000_0000_0000 <= other.center.y <= 0x4000_0000_0000_0000,
            -0x4000_0000_0000_0000 <= other.center.z <= 0x4000_0000_0000_0000,
        ensures
            r == spheres_intersect(*self, *other),
    {
        let dx = (self.center.x as i128) - (other.center.x as i128);
        let dy = (self.center.y as i128) - (other.center.y as i128);
        let dz = (self.center.z as i128) - (other.center.z as i128);
        proof {
            lemma_square_bounds(dx as int, 0x8000_0000_0000_0000);
            lemma_square_bounds(dy as int, 0x8000_0000_0000_0000);
            lemma_square_bounds(dz as int, 0x8000_0000_0000_0000);
        }
        let sq = ((dx * dx) as u128) + ((dy * dy) as u128) + ((dz * dz) as u128);
        let rs = (self.radius as u128) + (other.radius as u128);
        proof {
            lemma_square_bounds(rs as int, 0xFFFF_FFFF_FFFF_FFFE);
            assert(0xFFFF_FFFF_FFFF_FFFEint * 0xFFFF_FFFF_FFFF_FFFEint
                == 0xFFFF_FFFF_FFFF_FFFC_0000_0000_0000_0004int);
        }
        sq < rs * rs
    }
}

/// Overlap is symmetric in the two spheres: applying a collision to a pair
/// has the same effect whichever of the two initiates it.
pub proof fn lemma_intersects_symmetric(a: Sphere, b: Sphere)
    ensures
        spheres_intersect(a, b) == spheres_intersect(b, a),
{
    lemma_square_of_negated(a.center.x as int, b.center.x as int);
    lemma_square_of_negated(a.center.y as int, b.center.y as int);
    lemma_square_of_negated(a.center.z as int, b.center.z as int);
}

proof fn lemma_square_of_negated(x: int, y: int)
    ensures
        (x - y) * (x - y) == (y - x) * (y - x),
{
    assert((x - y) * (x - y) == (y - x) * (y - x)) by (nonlinear_arith);
}

/// A square of a value bounded by `m` in magnitude is non-negative and at
/// most `m * m`.
pub proof fn lemma_square_bounds(a: int, m: int)
    requires
        -m <= a <= m,
    ensures
        0 <= a * a <= m * m,
{
    assert(0 <= a * a) by (nonlinear_arith);
    assert(-m <= a <= m ==> a * a <= m * m) by (nonlinear_arith);
}

/// An axis-aligned cube: minimum corner plus side length. All cell extents
/// are powers of two.
#[derive(Clone, Copy, PartialEq, Eq, Structural, Debug)]
pub struct Cube {
    pub origin: Vec3,
    pub size: i64,
}

/// `move_to` fails exactly when some stepped sign bit would leave `{0, 1}`.
pub proof fn lemma_move_to_none_iff(q: Quadrant, dir: Vec3)
    ensures
        q.spec_move_to(dir) is None <==> {
            let x = (if q.spec_x_p() {
                1int
            } else {
                0int
            }) + dir.x;
            let y = (if q.spec_y_p() {
                1int
            } else {
                0int
            }) + dir.y;
            let z = (if q.spec_z_p() {
                1int
            } else {
                0int
            }) + dir.z;
            !(0 <= x <= 1 && 0 <= y <= 1 && 0 <= z <= 1)
        },
{
}

} // verus!
