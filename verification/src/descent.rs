//! The descent through the genera: how many steps there are, how a level is
//! called, and what one step does.

use vstd::prelude::*;
use crate::dedup::{
    bucket_views, bucketed, covers, dedupe, filter_view, first_malformed, stored_wf, tidy, Bucket,
    DedupError,
};
use crate::flips::{
    apply_flips, flip_views, next_generation, subdivision_views, Flip, FlipError,
};
use crate::graph::degree;
use crate::signature::{decimal, decimal_text};
use crate::skeleton::skeleton;
use crate::subdivision::Subdivision;

verus! {

/// The number of steps of the descent that starts at `genus`: one for every
/// genus from `genus - 1` down to 3. A genus must lie strictly between 3 and
/// 9; there is no descent from any other.
pub open spec fn depth(genus: usize) -> Option<usize> {
    if 3 < genus < 9 {
        Some((genus - 3) as usize)
    } else {
        None
    }
}

/// The number of steps of the descent that starts at `genus`.
pub fn descent_depth(genus: usize) -> (steps: Option<usize>)
    ensures
        steps == depth(genus),
{
    if genus > 3 && genus < 9 {
        Some(genus - 3)
    } else {
        None
    }
}

/// The name of a level: the word "genus" and the genus in decimal.
pub open spec fn level_text(genus: usize) -> Seq<char> {
    seq!['g', 'e', 'n', 'u', 's'] + decimal(genus as nat)
}

/// The name of the level reached from `genus` after `node` steps.
pub fn level_name(genus: usize, node: usize) -> (name: String)
    requires
        node <= genus,
    ensures
        name@ == level_text((genus - node) as usize),
{
    proof {
        reveal_strlit("genus");
    }
    let mut name = String::from_str("genus");
    let digits = decimal_text(genus - node);
    name.append(digits.as_str());
    assert(name@ =~= level_text((genus - node) as usize));
    name
}

/// What one step of the descent yields: the next generation with its
/// provenance, and the buckets of its dual graphs.
#[derive(Debug)]
pub struct Level {
    pub subdivisions: Vec<Subdivision>,
    pub provenance: Vec<usize>,
    pub buckets: Vec<Bucket>,
}

/// Why a step of the descent failed.
#[derive(Clone, Copy, Debug, PartialEq, Eq, Structural)]
pub enum StepError {
    /// The flips do not fit the generation.
    Flips(FlipError),
    /// A subdivision of the next generation has no dual graph.
    Skeleton(DedupError),
}

/// One step of the descent: the flips are applied to the generation, and the
/// dual graphs of the children are sorted into buckets. The size of the
/// generation is the number of its subdivisions.
///
/// The step fails where the flips do not fit the generation, and otherwise
/// where a child has a dual graph with a vertex of a degree other than 3.
pub fn genus_step(
    subdivisions: &Vec<Subdivision>,
    flips: &Vec<Flip>,
    provenance: &Vec<usize>,
    filter: Option<&Vec<String>>,
) -> (step: Result<Level, StepError>)
    ensures
        match next_generation(
            subdivision_views(subdivisions@),
            flip_views(flips@),
            provenance@,
            subdivisions@.len() as usize,
        ) {
            Err(e) => step == Err::<Level, StepError>(StepError::Flips(e)),
            Ok((cells, origin)) => {
                &&& step is Ok <==> first_malformed(cells, 0) == cells.len()
                &&& step matches Ok(level) ==> {
                    &&& subdivision_views(level.subdivisions@) == cells
                    &&& level.provenance@ == origin
                    &&& bucket_views(level.buckets@) == bucketed(
                        cells,
                        filter_view(filter),
                        cells.len() as int,
                    )
                    &&& tidy(bucket_views(level.buckets@), filter_view(filter))
                    &&& covers(
                        bucket_views(level.buckets@),
                        cells,
                        filter_view(filter),
                        cells.len() as int,
                    )
                    &&& stored_wf(level.buckets@)
                }
                &&& step matches Err(e) ==> e matches StepError::Skeleton(d) && {
                    let dual = skeleton(cells[d.subdivision as int]);
                    &&& d.subdivision == first_malformed(cells, 0)
                    &&& d.vertex < dual.vertices
                    &&& degree(dual.edges, d.vertex as int) != 3
                    &&& forall|u: int| 0 <= u < d.vertex ==> #[trigger] degree(dual.edges, u) == 3
                }
            },
        },
{
    let (next, origin) = match apply_flips(subdivisions, flips, provenance, subdivisions.len()) {
        Ok(pair) => pair,
        Err(e) => {
            return Err(StepError::Flips(e));
        },
    };
    match dedupe(&next, filter) {
        Ok(buckets) => Ok(Level { subdivisions: next, provenance: origin, buckets }),
        Err(d) => Err(StepError::Skeleton(d)),
    }
}

} // verus!
