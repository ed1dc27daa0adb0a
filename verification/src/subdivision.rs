//! Subdivisions of the polygon into cells, and the sides along which cells
//! meet.

use vstd::prelude::*;

verus! {

/// One elementary region: the lattice points at its corners, by their
/// identifiers, and the segments that bound it, each by the identifiers of
/// its two end points. A segment with the region on both of its sides is
/// listed twice.
#[derive(Debug)]
pub struct Cell {
    pub corners: Vec<u32>,
    pub sides: Vec<(u32, u32)>,
}

/// What a cell is: its corners and its bounding segments as sequences.
pub struct CellView {
    pub corners: Seq<u32>,
    pub sides: Seq<(u32, u32)>,
}

impl View for Cell {
    type V = CellView;

    open spec fn view(&self) -> CellView {
        CellView { corners: self.corners@, sides: self.sides@ }
    }
}

/// A side of a cell: one of its bounding segments, together with the index
/// of the cell. The end points are stored with the smaller identifier first,
/// so that the two cells on either side of a segment describe it by the same
/// pair.
#[derive(Clone, Copy, Debug, PartialEq, Eq, Structural)]
pub struct Side {
    pub owner: usize,
    pub lo: u32,
    pub hi: u32,
}

/// The segments round a region with the given corners: from every corner to
/// the one after it, the last segment closing the walk at the first corner.
pub open spec fn ring(corners: Seq<u32>) -> Seq<(u32, u32)> {
    Seq::new(
        corners.len(),
        |k: int| (corners[k], corners[if k + 1 == corners.len() { 0 } else { k + 1 }]),
    )
}

/// The `k`-th side of `cell`, which is cell number `owner`.
pub open spec fn side_at(cell: CellView, owner: usize, k: int) -> Side {
    let (p, q) = cell.sides[k];
    if p <= q {
        Side { owner, lo: p, hi: q }
    } else {
        Side { owner, lo: q, hi: p }
    }
}

/// All sides of one cell, in the order in which the cell lists them.
pub open spec fn cell_sides(cell: CellView, owner: usize) -> Seq<Side> {
    Seq::new(cell.sides.len(), |k: int| side_at(cell, owner, k))
}

/// The sides of the first `n` cells, cell after cell.
pub open spec fn sides_of_first(cells: Seq<CellView>, n: int) -> Seq<Side>
    decreases n,
{
    if n <= 0 {
        Seq::empty()
    } else {
        sides_of_first(cells, n - 1) + cell_sides(cells[n - 1], (n - 1) as usize)
    }
}

/// Two sides lie on the same segment.
pub open spec fn same_segment(s: Side, t: Side) -> bool {
    s.lo == t.lo && s.hi == t.hi
}

/// The single rule that decides where the polygon ends: a side lies on the
/// outer boundary exactly when no other side of the subdivision, of any cell,
/// lies on the same segment.
pub open spec fn on_boundary(sides: Seq<Side>, i: int) -> bool {
    forall|j: int| 0 <= j < sides.len() && j != i ==> !same_segment(sides[i], #[trigger] sides[j])
}

/// A nodal subdivision of the polygon: its cells, in a fixed order. The index
/// of a cell in that order is its name in everything derived from the
/// subdivision.
#[derive(Debug)]
pub struct Subdivision {
    pub cells: Vec<Cell>,
}

impl View for Subdivision {
    type V = Seq<CellView>;

    open spec fn view(&self) -> Seq<CellView> {
        Seq::new(self.cells@.len(), |i: int| self.cells@[i]@)
    }
}

/// A copy of a list of identifiers.
fn copy_points(points: &Vec<u32>) -> (copy: Vec<u32>)
    ensures
        copy@ == points@,
{
    let mut copy: Vec<u32> = Vec::new();
    let mut k: usize = 0;
    while k < points.len()
        invariant
            k <= points@.len(),
            copy@ == points@.take(k as int),
        decreases points@.len() - k,
    {
        copy.push(points[k]);
        assert(points@.take(k + 1) =~= points@.take(k as int).push(points@[k as int]));
        k += 1;
    }
    assert(points@.take(points@.len() as int) =~= points@);
    copy
}

/// A copy of a list of segments.
fn copy_segments(segments: &Vec<(u32, u32)>) -> (copy: Vec<(u32, u32)>)
    ensures
        copy@ == segments@,
{
    let mut copy: Vec<(u32, u32)> = Vec::new();
    let mut k: usize = 0;
    while k < segments.len()
        invariant
            k <= segments@.len(),
            copy@ == segments@.take(k as int),
        decreases segments@.len() - k,
    {
        copy.push(segments[k]);
        assert(segments@.take(k + 1) =~= segments@.take(k as int).push(segments@[k as int]));
        k += 1;
    }
    assert(segments@.take(segments@.len() as int) =~= segments@);
    copy
}

impl Cell {
    /// A cell with the given corners and bounding segments.
    pub fn new(corners: Vec<u32>, sides: Vec<(u32, u32)>) -> (cell: Cell)
        ensures
            cell@.corners == corners@,
            cell@.sides == sides@,
    {
        Cell { corners, sides }
    }

    /// The cell that is bounded by the segments round its corners, taken in
    /// the order given.
    pub fn polygon(corners: Vec<u32>) -> (cell: Cell)
        ensures
            cell@.corners == corners@,
            cell@.sides == ring(corners@),
    {
        let mut sides: Vec<(u32, u32)> = Vec::new();
        let mut k: usize = 0;
        while k < corners.len()
            invariant
                k <= corners@.len(),
                sides@ == ring(corners@).take(k as int),
            decreases corners@.len() - k,
        {
            let next = if k + 1 == corners.len() { 0 } else { k + 1 };
            sides.push((corners[k], corners[next]));
            assert(ring(corners@).take(k + 1) =~= ring(corners@).take(k as int).push(
                ring(corners@)[k as int],
            ));
            k += 1;
        }
        assert(ring(corners@).take(k as int) =~= ring(corners@));
        Cell { corners, sides }
    }

    /// Whether two cells have the same corners and the same bounding
    /// segments, each in the same order.
    pub fn same_as(&self, other: &Cell) -> (same: bool)
        ensures
            same == (self@ == other@),
    {
        if self.corners.len() != other.corners.len() || self.sides.len() != other.sides.len() {
            return false;
        }
        let mut k: usize = 0;
        while k < self.corners.len()
            invariant
                k <= self.corners@.len(),
                self.corners@.len() == other.corners@.len(),
                forall|i: int| 0 <= i < k ==> self.corners@[i] == other.corners@[i],
            decreases self.corners@.len() - k,
        {
            if self.corners[k] != other.corners[k] {
                return false;
            }
            k += 1;
        }
        let mut k: usize = 0;
        while k < self.sides.len()
            invariant
                k <= self.sides@.len(),
                self.sides@.len() == other.sides@.len(),
                forall|i: int| 0 <= i < k ==> self.sides@[i] == other.sides@[i],
            decreases self.sides@.len() - k,
        {
            if self.sides[k].0 != other.sides[k].0 || self.sides[k].1 != other.sides[k].1 {
                return false;
            }
            k += 1;
        }
        assert(self.corners@ =~= other.corners@);
        assert(self.sides@ =~= other.sides@);
        true
    }

    /// The number of sides of the cell.
    pub fn side_count(&self) -> (n: usize)
        ensures
            n == self@.sides.len(),
    {
        self.sides.len()
    }
}

impl Clone for Cell {
    fn clone(&self) -> (copy: Cell)
        ensures
            copy@ == self@,
    {
        Cell { corners: copy_points(&self.corners), sides: copy_segments(&self.sides) }
    }
}

impl Subdivision {
    /// A subdivision with the given cells.
    pub fn new(cells: Vec<Cell>) -> (subdivision: Subdivision)
        ensures
            subdivision.cells == cells,
    {
        Subdivision { cells }
    }

    /// The number of cells.
    pub fn cell_count(&self) -> (n: usize)
        ensures
            n == self@.len(),
    {
        self.cells.len()
    }

    /// Whether two subdivisions have the same cells in the same order.
    pub fn same_as(&self, other: &Subdivision) -> (same: bool)
        ensures
            same == (self@ == other@),
    {
        if self.cells.len() != other.cells.len() {
            assert(self@.len() != other@.len());
            return false;
        }
        let mut k: usize = 0;
        while k < self.cells.len()
            invariant
                k <= self.cells@.len(),
                self.cells@.len() == other.cells@.len(),
                forall|i: int| 0 <= i < k ==> self@[i] == other@[i],
            decreases self.cells@.len() - k,
        {
            if !self.cells[k].same_as(&other.cells[k]) {
                assert(self@[k as int] != other@[k as int]);
                return false;
            }
            k += 1;
        }
        assert(self@ =~= other@);
        true
    }

    /// All sides of all cells, cell after cell.
    pub open spec fn sides(&self) -> Seq<Side> {
        sides_of_first(self@, self@.len() as int)
    }
}

impl Clone for Subdivision {
    fn clone(&self) -> (copy: Subdivision)
        ensures
            copy@ == self@,
    {
        let mut cells: Vec<Cell> = Vec::new();
        let mut k: usize = 0;
        while k < self.cells.len()
            invariant
                k <= self.cells.len(),
                cells@.len() == k,
                forall|i: int| 0 <= i < k ==> cells@[i]@ == self@[i],
            decreases self.cells.len() - k,
        {
            let cell = self.cells[k].clone();
            cells.push(cell);
            k += 1;
        }
        let copy = Subdivision { cells };
        assert(copy@ =~= self@);
        copy
    }
}

} // verus!
