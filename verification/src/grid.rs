//! A rectangular bit grid and the shape-packing rules: fixed shapes are
//! placed onto a grid, with a bounds check and an overlap check that backs
//! out without mutating anything.
//!
//! The cells are stored in fixedbitset's `FixedBitSet`, which Verus sees
//! only through the model function `bits_model` and a few trusted wrappers.

use vstd::prelude::*;

verus! {

#[verifier::external_type_specification]
#[verifier::external_body]
pub struct ExFixedBitSet(fixedbitset::FixedBitSet);

/// The bits held by a backing bit set, in order of bit index.
pub uninterp spec fn bits_model(v: fixedbitset::FixedBitSet) -> Seq<bool>;

/// Relies on fixedbitset::FixedBitSet::with_capacity: a set of `bits` bits,
/// all initially clear.
#[verifier::external_body]
fn fbs_with_capacity(bits: usize) -> (r: fixedbitset::FixedBitSet)
    ensures
        bits_model(r).len() == bits,
        forall|j: int| 0 <= j < bits ==> !bits_model(r)[j],
{
    fixedbitset::FixedBitSet::with_capacity(bits)
}

/// Relies on fixedbitset::FixedBitSet::contains: whether the bit is enabled;
/// bits outside the capacity read as disabled.
#[verifier::external_body]
fn fbs_contains(v: &fixedbitset::FixedBitSet, bit: usize) -> (r: bool)
    ensures
        r == (bit < bits_model(*v).len() && bits_model(*v)[bit as int]),
{
    v.contains(bit)
}

/// Relies on fixedbitset::FixedBitSet::set: sets one bit to the given
/// value.  It panics on a bit beyond the capacity, which the bound rules
/// out.
#[verifier::external_body]
fn fbs_set(v: &mut fixedbitset::FixedBitSet, bit: usize, enabled: bool)
    requires
        bit < bits_model(*old(v)).len(),
    ensures
        bits_model(*final(v)) == bits_model(*old(v)).update(bit as int, enabled),
{
    v.set(bit, enabled)
}

/// A two-dimensional bit array, indexed by `(x1, x2)` with `x1` the fast
/// axis, stored row-major in a flat bit set.
pub struct Bits2D {
    elem: fixedbitset::FixedBitSet,
    length1: u32,
    length2: u32,
}

impl Bits2D {
    /// The backing store holds exactly one bit per cell, and the flat cell
    /// count is representable.
    pub closed spec fn wf(self) -> bool {
        &&& bits_model(self.elem).len() == (self.length1 as int) * (self.length2 as int)
        &&& (self.length1 as int) * (self.length2 as int) <= usize::MAX
    }

    /// The extent along the first (fast) axis.
    pub closed spec fn spec_length1(self) -> u32 {
        self.length1
    }

    /// The extent along the second axis.
    pub closed spec fn spec_length2(self) -> u32 {
        self.length2
    }

    /// The cell at `(x1, x2)`.
    pub closed spec fn bit(self, x1: int, x2: int) -> bool {
        bits_model(self.elem)[x1 + x2 * (self.length1 as int)]
    }

    /// A flat bit index stays within the store whenever its coordinates are
    /// within range.
    proof fn lemma_index_in_range(self, x1: int, x2: int)
        requires
            self.wf(),
            0 <= x1 < self.length1,
            0 <= x2 < self.length2,
        ensures
            0 <= x1 + x2 * (self.length1 as int) < bits_model(self.elem).len(),
    {
        let l1 = self.length1 as int;
        let l2 = self.length2 as int;
        assert(x1 + x2 * l1 < l1 * l2) by (nonlinear_arith)
            requires
                0 <= x1 < l1,
                0 <= x2 < l2,
        ;
        assert(0 <= x2 * l1) by (nonlinear_arith)
            requires
                0 <= x2,
                0 <= l1,
        ;
    }

    /// Two distinct coordinate pairs in range never share a flat index.
    proof fn lemma_index_injective(self, x1: int, x2: int, y1: int, y2: int)
        requires
            0 <= x1 < self.length1,
            0 <= x2 < self.length2,
            0 <= y1 < self.length1,
            0 <= y2 < self.length2,
            x1 + x2 * (self.length1 as int) == y1 + y2 * (self.length1 as int),
        ensures
            x1 == y1 && x2 == y2,
    {
        let l1 = self.length1 as int;
        assert(x1 == y1 && x2 == y2) by (nonlinear_arith)
            requires
                0 <= x1 < l1,
                0 <= y1 < l1,
                x1 + x2 * l1 == y1 + y2 * l1,
        ;
    }

    /// A grid of the given extents with every cell clear.  The bound keeps
    /// the flat cell count representable.
    pub fn new(length1: u32, length2: u32) -> (r: Bits2D)
        requires
            (length1 as int) * (length2 as int) <= usize::MAX,
        ensures
            r.wf(),
            r.spec_length1() == length1,
            r.spec_length2() == length2,
            forall|x1: int, x2: int|
                0 <= x1 < length1 && 0 <= x2 < length2 ==> !r.bit(x1, x2),
    {
        proof {
            assert((length1 as int) * (length2 as int) >= 0) by (nonlinear_arith);
        }
        let cells = (length1 as usize) * (length2 as usize);
        let r = Bits2D { elem: fbs_with_capacity(cells), length1, length2 };
        proof {
            assert forall|x1: int, x2: int|
                0 <= x1 < length1 && 0 <= x2 < length2 implies !r.bit(x1, x2) by {
                r.lemma_index_in_range(x1, x2);
            }
        }
        r
    }

    /// The extent along the first (fast) axis.
    pub fn length1(&self) -> (r: u32)
        ensures
            r == self.spec_length1(),
    {
        self.length1
    }

    /// The extent along the second axis.
    pub fn length2(&self) -> (r: u32)
        ensures
            r == self.spec_length2(),
    {
        self.length2
    }

    /// Write one cell; every other cell is untouched.
    pub fn assign(&mut self, x1: u32, x2: u32, value: bool)
        requires
            old(self).wf(),
            x1 < old(self).spec_length1(),
            x2 < old(self).spec_length2(),
        ensures
            final(self).wf(),
            final(self).spec_length1() == old(self).spec_length1(),
            final(self).spec_length2() == old(self).spec_length2(),
            final(self).bit(x1 as int, x2 as int) == value,
            forall|y1: int, y2: int|
                0 <= y1 < old(self).spec_length1() && 0 <= y2 < old(self).spec_length2() && !(y1
                    == x1 && y2 == x2) ==> final(self).bit(y1, y2) == old(self).bit(y1, y2),
    {
        proof {
            self.lemma_index_in_range(x1 as int, x2 as int);
        }
        let idx = (x1 as usize) + (x2 as usize) * (self.length1 as usize);
        fbs_set(&mut self.elem, idx, value);
        proof {
            assert forall|y1: int, y2: int|
                0 <= y1 < self.spec_length1() && 0 <= y2 < self.spec_length2() && !(y1 == x1 && y2
                    == x2) implies final(self).bit(y1, y2) == old(self).bit(y1, y2) by {
                self.lemma_index_in_range(y1, y2);
                if y1 + y2 * (self.length1 as int) == x1 + (x2 as int) * (self.length1 as int) {
                    self.lemma_index_injective(y1, y2, x1 as int, x2 as int);
                }
            }
        }
    }

    /// Set one cell.
    pub fn set(&mut self, x1: u32, x2: u32)
        requires
            old(self).wf(),
            x1 < old(self).spec_length1(),
            x2 < old(self).spec_length2(),
        ensures
            final(self).wf(),
            final(self).spec_length1() == old(self).spec_length1(),
            final(self).spec_length2() == old(self).spec_length2(),
            final(self).bit(x1 as int, x2 as int),
            forall|y1: int, y2: int|
                0 <= y1 < old(self).spec_length1() && 0 <= y2 < old(self).spec_length2() && !(y1
                    == x1 && y2 == x2) ==> final(self).bit(y1, y2) == old(self).bit(y1, y2),
    {
        self.assign(x1, x2, true);
    }

    /// Read one cell; a coordinate out of range reads as clear.
    pub fn get(&self, x1: u32, x2: u32) -> (r: bool)
        requires
            self.wf(),
        ensures
            x1 < self.spec_length1() && x2 < self.spec_length2() ==> r == self.bit(
                x1 as int,
                x2 as int,
            ),
            !(x1 < self.spec_length1() && x2 < self.spec_length2()) ==> !r,
    {
        if x1 >= self.length1 || x2 >= self.length2 {
            return false;
        }
        proof {
            self.lemma_index_in_range(x1 as int, x2 as int);
        }
        let idx = (x1 as usize) + (x2 as usize) * (self.length1 as usize);
        fbs_contains(&self.elem, idx)
    }
}

/// A fixed shape to be placed: a bit for every cell it covers.
pub struct Shape(Bits2D);

impl Shape {
    /// The backing store is well formed.
    pub closed spec fn wf(self) -> bool {
        self.0.wf()
    }

    /// The extent along the first axis.
    pub closed spec fn spec_length1(self) -> u32 {
        self.0.spec_length1()
    }

    /// The extent along the second axis.
    pub closed spec fn spec_length2(self) -> u32 {
        self.0.spec_length2()
    }

    /// The cell at `(x1, x2)`.
    pub closed spec fn bit(self, x1: int, x2: int) -> bool {
        self.0.bit(x1, x2)
    }

    /// The extent along the first axis.
    pub fn length1(&self) -> (r: u32)
        ensures
            r == self.spec_length1(),
    {
        self.0.length1()
    }

    /// The extent along the second axis.
    pub fn length2(&self) -> (r: u32)
        ensures
            r == self.spec_length2(),
    {
        self.0.length2()
    }

    /// Read one cell; a coordinate out of range reads as clear.
    pub fn get(&self, x1: u32, x2: u32) -> (r: bool)
        requires
            self.wf(),
        ensures
            x1 < self.spec_length1() && x2 < self.spec_length2() ==> r == self.bit(
                x1 as int,
                x2 as int,
            ),
            !(x1 < self.spec_length1() && x2 < self.spec_length2()) ==> !r,
    {
        self.0.get(x1, x2)
    }
}

/// The playing field: a bit for every occupied cell.
pub struct Grid(Bits2D);

/// Whether the shape, placed at the offset, lies entirely on the grid.
pub open spec fn shape_fits(g: Grid, s: Shape, x_offset: u32, y_offset: u32) -> bool {
    &&& s.spec_length1() + x_offset <= g.spec_length1()
    &&& s.spec_length2() + y_offset <= g.spec_length2()
}

/// Whether the shape, placed at the offset, covers an occupied grid cell.
pub open spec fn shape_overlaps(g: Grid, s: Shape, x_offset: u32, y_offset: u32) -> bool {
    exists|x: int, y: int|
        0 <= x < s.spec_length1() && 0 <= y < s.spec_length2() && s.bit(x, y) && g.bit(
            x_offset + x,
            y_offset + y,
        )
}

impl Grid {
    /// The backing store is well formed.
    pub closed spec fn wf(self) -> bool {
        self.0.wf()
    }

    /// The extent along the first axis.
    pub closed spec fn spec_length1(self) -> u32 {
        self.0.spec_length1()
    }

    /// The extent along the second axis.
    pub closed spec fn spec_length2(self) -> u32 {
        self.0.spec_length2()
    }

    /// The cell at `(x1, x2)`.
    pub closed spec fn bit(self, x1: int, x2: int) -> bool {
        self.0.bit(x1, x2)
    }

    /// An empty grid of the given extents.
    pub fn new(width: u32, height: u32) -> (r: Grid)
        requires
            (width as int) * (height as int) <= usize::MAX,
        ensures
            r.wf(),
            r.spec_length1() == width,
            r.spec_length2() == height,
            forall|x: int, y: int| 0 <= x < width && 0 <= y < height ==> !r.bit(x, y),
    {
        Grid(Bits2D::new(width, height))
    }

    /// The extent along the first axis.
    pub fn length1(&self) -> (r: u32)
        ensures
            r == self.spec_length1(),
    {
        self.0.length1()
    }

    /// The extent along the second axis.
    pub fn length2(&self) -> (r: u32)
        ensures
            r == self.spec_length2(),
    {
        self.0.length2()
    }

    /// Read one cell; a coordinate out of range reads as clear.
    pub fn get(&self, x1: u32, x2: u32) -> (r: bool)
        requires
            self.wf(),
        ensures
            x1 < self.spec_length1() && x2 < self.spec_length2() ==> r == self.bit(
                x1 as int,
                x2 as int,
            ),
            !(x1 < self.spec_length1() && x2 < self.spec_length2()) ==> !r,
    {
        self.0.get(x1, x2)
    }

    /// Try to place a shape at the offset.  The placement succeeds exactly
    /// when the shape lies on the grid and covers no occupied cell; it then
    /// writes the shape's cells over the covered region and touches nothing
    /// else.  A failed placement backs out without mutating anything.
    pub fn try_place(&mut self, shape: &Shape, x_offset: u32, y_offset: u32) -> (r: bool)
        requires
            old(self).wf(),
            shape.wf(),
        ensures
            final(self).wf(),
            final(self).spec_length1() == old(self).spec_length1(),
            final(self).spec_length2() == old(self).spec_length2(),
            r == (shape_fits(*old(self), *shape, x_offset, y_offset) && !shape_overlaps(
                *old(self),
                *shape,
                x_offset,
                y_offset,
            )),
            !r ==> *final(self) == *old(self),
            r ==> forall|x: int, y: int|
                0 <= x < shape.spec_length1() && 0 <= y < shape.spec_length2() ==> final(self).bit(
                    x_offset + x,
                    y_offset + y,
                ) == shape.bit(x, y),
            r ==> forall|x: int, y: int|
                0 <= x < old(self).spec_length1() && 0 <= y < old(self).spec_length2() && !(
                x_offset <= x < x_offset + shape.spec_length1() && y_offset <= y < y_offset
                    + shape.spec_length2()) ==> final(self).bit(x, y) == old(self).bit(x, y),
    {
        let gl1 = self.0.length1();
        let gl2 = self.0.length2();
        let sl1 = shape.0.length1();
        let sl2 = shape.0.length2();
        // Bounds check
        if sl1 > gl1 || x_offset > gl1 - sl1 {
            return false;
        }
        if sl2 > gl2 || y_offset > gl2 - sl2 {
            return false;
        }
        // Check availability without mutating anything, so the attempt can
        // back out.
        let mut y: u32 = 0;
        while y < sl2
            invariant
                y <= sl2,
                forall|xx: int, yy: int|
                    0 <= xx < sl1 && 0 <= yy < y ==> !(shape.bit(xx, yy) && self.bit(
                        x_offset + xx,
                        y_offset + yy,
                    )),
            decreases sl2 - y,
        {
            let mut x: u32 = 0;
            while x < sl1
                invariant
                    x <= sl1,
                    y < sl2,
                    forall|xx: int, yy: int|
                        0 <= xx < sl1 && 0 <= yy < y ==> !(shape.bit(xx, yy) && self.bit(
                            x_offset + xx,
                            y_offset + yy,
                        )),
                    forall|xx: int|
                        0 <= xx < x ==> !(shape.bit(xx, y as int) && self.bit(
                            x_offset + xx,
                            y_offset + y,
                        )),
                decreases sl1 - x,
            {
                if shape.0.get(x, y) && self.0.get(x_offset + x, y_offset + y) {
                    proof {
                        assert(shape.bit(x as int, y as int) && self.bit(
                            x_offset + x,
                            y_offset + y,
                        ));
                        assert(shape_overlaps(*self, *shape, x_offset, y_offset));
                    }
                    return false;
                }
                x = x + 1;
            }
            y = y + 1;
        }
        proof {
            assert(!shape_overlaps(*self, *shape, x_offset, y_offset));
        }
        // Make the change.
        let ghost before = *self;
        let mut y: u32 = 0;
        while y < sl2
            invariant
                y <= sl2,
                self.wf(),
                self.spec_length1() == before.spec_length1(),
                self.spec_length2() == before.spec_length2(),
                shape_fits(before, *shape, x_offset, y_offset),
                forall|xx: int, yy: int|
                    0 <= xx < sl1 && 0 <= yy < y ==> self.bit(x_offset + xx, y_offset + yy)
                        == shape.bit(xx, yy),
                forall|xx: int, yy: int|
                    0 <= xx < before.spec_length1() && 0 <= yy < before.spec_length2() && !(
                    x_offset <= xx < x_offset + sl1 && y_offset <= yy < y_offset + y) ==> self.bit(
                        xx,
                        yy,
                    ) == before.bit(xx, yy),
            decreases sl2 - y,
        {
            let mut x: u32 = 0;
            while x < sl1
                invariant
                    x <= sl1,
                    y < sl2,
                    self.wf(),
                    self.spec_length1() == before.spec_length1(),
                    self.spec_length2() == before.spec_length2(),
                    shape_fits(before, *shape, x_offset, y_offset),
                    forall|xx: int, yy: int|
                        0 <= xx < sl1 && 0 <= yy < y ==> self.bit(x_offset + xx, y_offset + yy)
                            == shape.bit(xx, yy),
                    forall|xx: int|
                        0 <= xx < x ==> self.bit(x_offset + xx, y_offset + y) == shape.bit(
                            xx,
                            y as int,
                        ),
                    forall|xx: int, yy: int|
                        0 <= xx < before.spec_length1() && 0 <= yy < before.spec_length2() && !(
                        x_offset <= xx < x_offset + sl1 && y_offset <= yy < y_offset + y) && !(
                        x_offset <= xx < x_offset + x && yy == y_offset + y) ==> self.bit(xx, yy)
                            == before.bit(xx, yy),
                decreases sl1 - x,
            {
                self.0.assign(x_offset + x, y_offset + y, shape.0.get(x, y));
                x = x + 1;
            }
            y = y + 1;
        }
        true
    }

    /// Place a shape that is known to fit on unoccupied cells.
    pub fn must_place(&mut self, shape: &Shape, x_offset: u32, y_offset: u32)
        requires
            old(self).wf(),
            shape.wf(),
            shape_fits(*old(self), *shape, x_offset, y_offset),
            !shape_overlaps(*old(self), *shape, x_offset, y_offset),
        ensures
            final(self).wf(),
            final(self).spec_length1() == old(self).spec_length1(),
            final(self).spec_length2() == old(self).spec_length2(),
            forall|x: int, y: int|
                0 <= x < shape.spec_length1() && 0 <= y < shape.spec_length2() ==> final(self).bit(
                    x_offset + x,
                    y_offset + y,
                ) == shape.bit(x, y),
            forall|x: int, y: int|
                0 <= x < old(self).spec_length1() && 0 <= y < old(self).spec_length2() && !(
                x_offset <= x < x_offset + shape.spec_length1() && y_offset <= y < y_offset
                    + shape.spec_length2()) ==> final(self).bit(x, y) == old(self).bit(x, y),
    {
        let placed = self.try_place(shape, x_offset, y_offset);
        proof {
            assert(placed);
        }
    }
}

/// Whether a cell belongs to the stair-step shape.
pub open spec fn stair_step_cell(x: int, y: int) -> bool {
    (x == 0 && y == 0) || (x == 1 && y == 0) || (x == 1 && y == 1) || (x == 2 && y == 1)
}

/// The three-by-two stair-step shape.
pub fn stair_step() -> (s: Shape)
    ensures
        s.wf(),
        s.spec_length1() == 3,
        s.spec_length2() == 2,
        forall|x: int, y: int| 0 <= x < 3 && 0 <= y < 2 ==> s.bit(x, y) == stair_step_cell(x, y),
{
    let mut data = Bits2D::new(3, 2);
    data.set(0, 0);
    data.set(1, 0);
    data.set(1, 1);
    data.set(2, 1);
    Shape(data)
}

/// Whether a cell belongs to the ell shape.
pub open spec fn ell_cell(x: int, y: int) -> bool {
    (x == 0 && y == 0) || (x == 1 && y == 0) || (x == 0 && y == 1) || (x == 0 && y == 2)
}

/// The two-by-three ell shape.
pub fn ell() -> (s: Shape)
    ensures
        s.wf(),
        s.spec_length1() == 2,
        s.spec_length2() == 3,
        forall|x: int, y: int| 0 <= x < 2 && 0 <= y < 3 ==> s.bit(x, y) == ell_cell(x, y),
{
    let mut data = Bits2D::new(2, 3);
    data.set(0, 0);
    data.set(1, 0);
    data.set(0, 1);
    data.set(0, 2);
    Shape(data)
}

} // verus!
