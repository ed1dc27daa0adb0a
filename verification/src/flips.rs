//! Flips, and the step from one generation of subdivisions to the next.

use vstd::prelude::*;
use crate::subdivision::{Cell, CellView, Subdivision};

verus! {

/// A local change of a subdivision: the cells listed in `removed` are taken
/// out and the cells listed in `inserted` are put in their place. It applies
/// to the subdivisions that descend from the subdivision number `ancestor`.
#[derive(Debug)]
pub struct Flip {
    pub ancestor: usize,
    pub removed: Vec<Cell>,
    pub inserted: Vec<Cell>,
}

/// What a flip is, with every cell taken as what it is.
pub struct FlipView {
    pub ancestor: usize,
    pub removed: Seq<CellView>,
    pub inserted: Seq<CellView>,
}

/// The cells of a list, each taken as what it is.
pub open spec fn cell_views(cells: Seq<Cell>) -> Seq<CellView> {
    Seq::new(cells.len(), |i: int| cells[i]@)
}

impl View for Flip {
    type V = FlipView;

    open spec fn view(&self) -> FlipView {
        FlipView {
            ancestor: self.ancestor,
            removed: cell_views(self.removed@),
            inserted: cell_views(self.inserted@),
        }
    }
}

/// The subdivisions of a list, each as the sequence of its cells.
pub open spec fn subdivision_views(subdivisions: Seq<Subdivision>) -> Seq<Seq<CellView>> {
    Seq::new(subdivisions.len(), |i: int| subdivisions[i]@)
}

/// The flips of a list, each as what it is.
pub open spec fn flip_views(flips: Seq<Flip>) -> Seq<FlipView> {
    Seq::new(flips.len(), |i: int| flips[i]@)
}

/// The property of a cell of not being listed in `removed`.
pub open spec fn stays(removed: Seq<CellView>) -> spec_fn(CellView) -> bool {
    |cell: CellView| !removed.contains(cell)
}

/// The subdivision that a flip makes of `cells`: the cells that the flip does
/// not remove, in their order, followed by the cells that it inserts. A cell
/// is removed when it has the same corners and the same sides, each in the
/// same order, as a cell that the flip lists.
pub open spec fn flipped(cells: Seq<CellView>, flip: FlipView) -> Seq<CellView> {
    cells.filter(stays(flip.removed)) + flip.inserted
}

/// Why a generation has no successor.
#[derive(Clone, Copy, Debug, PartialEq, Eq, Structural)]
pub enum FlipError {
    /// The flip number `flip` refers to the ancestor `ancestor`, and the
    /// generation is not that large.
    AncestorOutOfRange { flip: usize, ancestor: usize },
    /// There are `subdivisions` subdivisions, and `provenance` entries that
    /// say where they come from.
    ProvenanceLength { subdivisions: usize, provenance: usize },
}

/// The number of the first flip, from number `from` on, whose ancestor is not
/// below `size`; the number of flips where there is none.
pub open spec fn first_stray(flips: Seq<FlipView>, size: usize, from: int) -> int
    decreases flips.len() - from,
{
    if from < 0 || from >= flips.len() {
        flips.len() as int
    } else if flips[from].ancestor >= size {
        from
    } else {
        first_stray(flips, size, from + 1)
    }
}

/// The flips that apply to the subdivision number `parent`, which descends
/// from `ancestor`: the pairs of `parent` and the number of a flip, for the
/// flips below `upto` that refer to `ancestor`, in the order of the flips.
pub open spec fn row(flips: Seq<FlipView>, ancestor: usize, parent: int, upto: int) -> Seq<(int, int)>
    decreases upto,
{
    if upto <= 0 {
        Seq::empty()
    } else {
        let before = row(flips, ancestor, parent, upto - 1);
        if flips[upto - 1].ancestor == ancestor {
            before.push((parent, upto - 1))
        } else {
            before
        }
    }
}

/// The pairs of a subdivision and a flip that applies to it, for the first
/// `upto` subdivisions: subdivision after subdivision, and for each of them
/// flip after flip.
pub open spec fn pairings(flips: Seq<FlipView>, provenance: Seq<usize>, upto: int) -> Seq<(int, int)>
    decreases upto,
{
    if upto <= 0 {
        Seq::empty()
    } else {
        pairings(flips, provenance, upto - 1) + row(
            flips,
            provenance[upto - 1],
            upto - 1,
            flips.len() as int,
        )
    }
}

/// The children: for every pair, what the flip makes of the subdivision.
pub open spec fn children(
    subdivisions: Seq<Seq<CellView>>,
    flips: Seq<FlipView>,
    pairs: Seq<(int, int)>,
) -> Seq<Seq<CellView>> {
    Seq::new(pairs.len(), |k: int| flipped(subdivisions[pairs[k].0], flips[pairs[k].1]))
}

/// For every pair, the number of its subdivision.
pub open spec fn parents(pairs: Seq<(int, int)>) -> Seq<usize> {
    Seq::new(pairs.len(), |k: int| pairs[k].0 as usize)
}

/// The generation that follows: one child for every subdivision and every
/// flip that refers to the ancestor of that subdivision, and for every child
/// the number of the subdivision that it was made from. There is none where
/// a flip refers to an ancestor that is not below `size`, or where the
/// provenance has not one entry for every subdivision.
pub open spec fn next_generation(
    subdivisions: Seq<Seq<CellView>>,
    flips: Seq<FlipView>,
    provenance: Seq<usize>,
    size: usize,
) -> Result<(Seq<Seq<CellView>>, Seq<usize>), FlipError> {
    let stray = first_stray(flips, size, 0);
    if stray < flips.len() {
        Err(FlipError::AncestorOutOfRange { flip: stray as usize, ancestor: flips[stray].ancestor })
    } else if provenance.len() != subdivisions.len() {
        Err(
            FlipError::ProvenanceLength {
                subdivisions: subdivisions.len() as usize,
                provenance: provenance.len() as usize,
            },
        )
    } else {
        let pairs = pairings(flips, provenance, subdivisions.len() as int);
        Ok((children(subdivisions, flips, pairs), parents(pairs)))
    }
}

/// What a step returned, with every subdivision as the sequence of its
/// cells.
pub open spec fn outcome(
    next: Result<(Vec<Subdivision>, Vec<usize>), FlipError>,
) -> Result<(Seq<Seq<CellView>>, Seq<usize>), FlipError> {
    match next {
        Ok((subdivisions, provenance)) => Ok((subdivision_views(subdivisions@), provenance@)),
        Err(e) => Err(e),
    }
}

/// Whether `cell` is one of `cells`.
fn is_among(cell: &Cell, cells: &Vec<Cell>) -> (found: bool)
    ensures
        found == cell_views(cells@).contains(cell@),
{
    let mut i: usize = 0;
    while i < cells.len()
        invariant
            i <= cells@.len(),
            forall|k: int| 0 <= k < i ==> cell_views(cells@)[k] != cell@,
        decreases cells@.len() - i,
    {
        if cells[i].same_as(cell) {
            assert(cell_views(cells@)[i as int] == cell@);
            return true;
        }
        i += 1;
    }
    false
}

impl Flip {
    /// A flip.
    pub fn new(ancestor: usize, removed: Vec<Cell>, inserted: Vec<Cell>) -> (flip: Flip)
        ensures
            flip.ancestor == ancestor,
            flip.removed == removed,
            flip.inserted == inserted,
    {
        Flip { ancestor, removed, inserted }
    }

    /// What the flip makes of `parent`.
    pub fn apply(&self, parent: &Subdivision) -> (child: Subdivision)
        ensures
            child@ == flipped(parent@, self@),
    {
        let ghost keep = stays(self@.removed);
        let mut cells: Vec<Cell> = Vec::new();
        let mut i: usize = 0;
        assert(parent@.take(0) =~= Seq::empty());
        assert(Seq::<CellView>::empty().filter(keep) =~= Seq::empty()) by {
            reveal(Seq::filter);
        }
        while i < parent.cells.len()
            invariant
                i <= parent.cells@.len(),
                keep == stays(self@.removed),
                cell_views(cells@) == parent@.take(i as int).filter(keep),
            decreases parent.cells@.len() - i,
        {
            let ghost before = cell_views(cells@);
            assert(parent@.take(i + 1) =~= parent@.take(i as int).push(parent@[i as int]));
            proof {
                Seq::lemma_filter_push(parent@.take(i as int), parent@[i as int], keep);
            }
            if !is_among(&parent.cells[i], &self.removed) {
                cells.push(parent.cells[i].clone());
                assert(cell_views(cells@) =~= before.push(parent@[i as int]));
            }
            i += 1;
        }
        assert(parent@.take(i as int) =~= parent@);
        let ghost kept = cell_views(cells@);
        let mut j: usize = 0;
        while j < self.inserted.len()
            invariant
                j <= self.inserted@.len(),
                cell_views(cells@) == kept + self@.inserted.take(j as int),
            decreases self.inserted@.len() - j,
        {
            let ghost before = cell_views(cells@);
            cells.push(self.inserted[j].clone());
            assert(cell_views(cells@) =~= before.push(self@.inserted[j as int]));
            assert(self@.inserted.take(j + 1) =~= self@.inserted.take(j as int).push(
                self@.inserted[j as int],
            ));
            assert(cell_views(cells@) =~= kept + self@.inserted.take(j + 1));
            j += 1;
        }
        assert(self@.inserted.take(j as int) =~= self@.inserted);
        let child = Subdivision { cells };
        assert(child@ =~= cell_views(cells@));
        child
    }
}

/// The number of the first flip whose ancestor is not below `size`.
fn find_stray(flips: &Vec<Flip>, size: usize) -> (found: Option<usize>)
    ensures
        found is None <==> first_stray(flip_views(flips@), size, 0) == flips@.len(),
        found matches Some(j) ==> j < flips@.len() && j == first_stray(flip_views(flips@), size, 0),
{
    let mut j: usize = 0;
    while j < flips.len()
        invariant
            j <= flips@.len(),
            first_stray(flip_views(flips@), size, 0) == first_stray(flip_views(flips@), size, j as int),
        decreases flips@.len() - j,
    {
        if flips[j].ancestor >= size {
            return Some(j);
        }
        j += 1;
    }
    None
}

/// The next generation: every flip is applied to every subdivision whose
/// provenance is the ancestor that the flip refers to. The children come in
/// the order of the subdivisions, and the children of one subdivision in the
/// order of the flips; the new provenance names, for every child, the
/// subdivision that it was made from. A subdivision to which no flip applies
/// has no children.
///
/// The step fails where a flip refers to an ancestor that is not below
/// `generation_size`, naming the first such flip, and where `provenance` has
/// not one entry for every subdivision.
pub fn apply_flips(
    subdivisions: &Vec<Subdivision>,
    flips: &Vec<Flip>,
    provenance: &Vec<usize>,
    generation_size: usize,
) -> (next: Result<(Vec<Subdivision>, Vec<usize>), FlipError>)
    ensures
        outcome(next) == next_generation(
            subdivision_views(subdivisions@),
            flip_views(flips@),
            provenance@,
            generation_size,
        ),
{
    let ghost subs = subdivision_views(subdivisions@);
    let ghost fls = flip_views(flips@);
    match find_stray(flips, generation_size) {
        Some(j) => {
            return Err(FlipError::AncestorOutOfRange { flip: j, ancestor: flips[j].ancestor });
        },
        None => {},
    }
    if provenance.len() != subdivisions.len() {
        return Err(
            FlipError::ProvenanceLength {
                subdivisions: subdivisions.len(),
                provenance: provenance.len(),
            },
        );
    }
    let mut next: Vec<Subdivision> = Vec::new();
    let mut origin: Vec<usize> = Vec::new();
    let ghost mut pairs: Seq<(int, int)> = Seq::empty();
    let mut i: usize = 0;
    while i < subdivisions.len()
        invariant
            i <= subdivisions@.len(),
            provenance@.len() == subdivisions@.len(),
            subs == subdivision_views(subdivisions@),
            fls == flip_views(flips@),
            pairs == pairings(fls, provenance@, i as int),
            next@.len() == pairs.len(),
            origin@.len() == pairs.len(),
            forall|k: int|
                0 <= k < pairs.len() ==> 0 <= (#[trigger] pairs[k]).0 < subs.len() && 0
                    <= pairs[k].1 < fls.len(),
            forall|k: int|
                0 <= k < pairs.len() ==> (#[trigger] next@[k])@ == flipped(
                    subs[pairs[k].0],
                    fls[pairs[k].1],
                ),
            forall|k: int| 0 <= k < pairs.len() ==> #[trigger] origin@[k] == pairs[k].0,
        decreases subdivisions@.len() - i,
    {
        let ghost done = pairs;
        let from = provenance[i];
        let mut j: usize = 0;
        while j < flips.len()
            invariant
                j <= flips@.len(),
                i < subdivisions@.len(),
                subs == subdivision_views(subdivisions@),
                fls == flip_views(flips@),
                pairs == done + row(fls, from, i as int, j as int),
                next@.len() == pairs.len(),
                origin@.len() == pairs.len(),
                forall|k: int|
                    0 <= k < pairs.len() ==> 0 <= (#[trigger] pairs[k]).0 < subs.len() && 0
                        <= pairs[k].1 < fls.len(),
                forall|k: int|
                    0 <= k < pairs.len() ==> (#[trigger] next@[k])@ == flipped(
                        subs[pairs[k].0],
                        fls[pairs[k].1],
                    ),
                forall|k: int| 0 <= k < pairs.len() ==> #[trigger] origin@[k] == pairs[k].0,
            decreases flips@.len() - j,
        {
            if flips[j].ancestor == from {
                let child = flips[j].apply(&subdivisions[i]);
                next.push(child);
                origin.push(i);
                proof {
                    pairs = pairs.push((i as int, j as int));
                }
            }
            assert(pairs =~= done + row(fls, from, i as int, j + 1));
            j += 1;
        }
        i += 1;
    }
    proof {
        assert(subdivision_views(next@) =~= children(subs, fls, pairs));
        assert(origin@ =~= parents(pairs));
    }
    Ok((next, origin))
}

/// One pair stands before another: its subdivision comes first, or the
/// subdivision is the same and its flip comes first.
pub open spec fn before(p: (int, int), q: (int, int)) -> bool {
    p.0 < q.0 || (p.0 == q.0 && p.1 < q.1)
}

/// The pairs of one subdivision: each names that subdivision and a flip that
/// refers to its ancestor, every such flip is there, and the flips ascend.
pub proof fn lemma_row(flips: Seq<FlipView>, ancestor: usize, parent: int, upto: int)
    requires
        0 <= upto <= flips.len(),
    ensures
        forall|k: int|
            0 <= k < row(flips, ancestor, parent, upto).len() ==> {
                let pair = #[trigger] row(flips, ancestor, parent, upto)[k];
                pair.0 == parent && 0 <= pair.1 < upto && flips[pair.1].ancestor == ancestor
            },
        forall|j: int|
            0 <= j < upto && (#[trigger] flips[j]).ancestor == ancestor ==> row(
                flips,
                ancestor,
                parent,
                upto,
            ).contains((parent, j)),
        forall|k: int, l: int|
            0 <= k < l < row(flips, ancestor, parent, upto).len() ==> before(
                #[trigger] row(flips, ancestor, parent, upto)[k],
                #[trigger] row(flips, ancestor, parent, upto)[l],
            ),
    decreases upto,
{
    if upto > 0 {
        lemma_row(flips, ancestor, parent, upto - 1);
        let shorter = row(flips, ancestor, parent, upto - 1);
        let whole = row(flips, ancestor, parent, upto);
        assert forall|j: int|
            0 <= j < upto && (#[trigger] flips[j]).ancestor == ancestor implies whole.contains(
            (parent, j),
        ) by {
            if j < upto - 1 {
                assert(shorter.contains((parent, j)));
                let k = choose|k: int| 0 <= k < shorter.len() && shorter[k] == (parent, j);
                assert(whole[k] == (parent, j));
            } else {
                assert(whole[whole.len() - 1] == (parent, j));
            }
        }
    }
}

/// The children of a generation, and their order. Every pair names a
/// subdivision and a flip that refers to the ancestor of that subdivision;
/// every such pair is there; and the pairs stand in the order of the
/// subdivisions and, for one subdivision, in the order of the flips.
pub proof fn lemma_pairings(flips: Seq<FlipView>, provenance: Seq<usize>, upto: int)
    requires
        0 <= upto <= provenance.len(),
    ensures
        forall|k: int|
            0 <= k < pairings(flips, provenance, upto).len() ==> {
                let pair = #[trigger] pairings(flips, provenance, upto)[k];
                0 <= pair.0 < upto && 0 <= pair.1 < flips.len() && flips[pair.1].ancestor
                    == provenance[pair.0]
            },
        forall|i: int, j: int|
            0 <= i < upto && 0 <= j < flips.len() && (#[trigger] flips[j]).ancestor
                == #[trigger] provenance[i] ==> pairings(flips, provenance, upto).contains((i, j)),
        forall|k: int, l: int|
            0 <= k < l < pairings(flips, provenance, upto).len() ==> before(
                #[trigger] pairings(flips, provenance, upto)[k],
                #[trigger] pairings(flips, provenance, upto)[l],
            ),
    decreases upto,
{
    if upto > 0 {
        lemma_pairings(flips, provenance, upto - 1);
        lemma_row(flips, provenance[upto - 1], upto - 1, flips.len() as int);
        let earlier = pairings(flips, provenance, upto - 1);
        let last = row(flips, provenance[upto - 1], upto - 1, flips.len() as int);
        let whole = pairings(flips, provenance, upto);
        assert(whole == earlier + last);
        assert forall|k: int| 0 <= k < whole.len() implies {
            let pair = #[trigger] whole[k];
            0 <= pair.0 < upto && 0 <= pair.1 < flips.len() && flips[pair.1].ancestor
                == provenance[pair.0]
        } by {
            if k < earlier.len() {
                assert(whole[k] == earlier[k]);
            } else {
                assert(whole[k] == last[k - earlier.len()]);
            }
        }
        assert forall|i: int, j: int|
            0 <= i < upto && 0 <= j < flips.len() && (#[trigger] flips[j]).ancestor
                == #[trigger] provenance[i] implies whole.contains((i, j)) by {
            if i < upto - 1 {
                assert(earlier.contains((i, j)));
                let k = choose|k: int| 0 <= k < earlier.len() && earlier[k] == (i, j);
                assert(whole[k] == (i, j));
            } else {
                assert(last.contains((i, j)));
                let k = choose|k: int| 0 <= k < last.len() && last[k] == (i, j);
                assert(whole[earlier.len() + k] == (i, j));
            }
        }
        assert forall|k: int, l: int| 0 <= k < l < whole.len() implies before(
            #[trigger] whole[k],
            #[trigger] whole[l],
        ) by {
            if l < earlier.len() {
                assert(whole[k] == earlier[k]);
                assert(whole[l] == earlier[l]);
            } else if k < earlier.len() {
                assert(whole[k] == earlier[k]);
                assert(whole[l] == last[l - earlier.len()]);
            } else {
                assert(whole[k] == last[k - earlier.len()]);
                assert(whole[l] == last[l - earlier.len()]);
            }
        }
    }
}

} // verus!
