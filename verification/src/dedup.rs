//! Sorting the graphs of one generation into buckets, one representative
//! for every class of isomorphic graphs.

use vstd::prelude::*;
use crate::graph::{degree, Graph, GraphView};
use crate::isomorphism::{
    isomorphic, lemma_isomorphic_reflexive, lemma_isomorphic_symmetric,
    lemma_isomorphic_transitive,
};
use crate::signature::key_of;
use crate::skeleton::skeleton;
use crate::subdivision::{CellView, Subdivision};

verus! {

/// The graphs that share one key and of which no two are isomorphic, each
/// with a subdivision that it is the dual graph of.
#[derive(Debug)]
pub struct Bucket {
    pub key: String,
    pub entries: Vec<(Graph, Subdivision)>,
}

/// What a bucket is: its key as text, and its entries as a graph and the
/// cells of a subdivision.
pub struct BucketView {
    pub key: Seq<char>,
    pub entries: Seq<(GraphView, Seq<CellView>)>,
}

/// The entries of a list, each as a graph and the cells of a subdivision.
pub open spec fn entry_views(entries: Seq<(Graph, Subdivision)>) -> Seq<(GraphView, Seq<CellView>)> {
    Seq::new(entries.len(), |i: int| (entries[i].0@, entries[i].1@))
}

impl View for Bucket {
    type V = BucketView;

    open spec fn view(&self) -> BucketView {
        BucketView { key: self.key@, entries: entry_views(self.entries@) }
    }
}

/// The buckets of a list, each as what it is.
pub open spec fn bucket_views(buckets: Seq<Bucket>) -> Seq<BucketView> {
    Seq::new(buckets.len(), |i: int| buckets[i]@)
}

/// The keys of a list as texts.
pub open spec fn key_texts(keys: Seq<String>) -> Seq<Seq<char>> {
    Seq::new(keys.len(), |i: int| keys[i]@)
}

/// The keys of a filter as texts; no filter stays no filter.
pub open spec fn filter_view(filter: Option<&Vec<String>>) -> Option<Seq<Seq<char>>> {
    match filter {
        None => None,
        Some(keys) => Some(key_texts(keys@)),
    }
}

/// Why a generation cannot be sorted: the dual graph of the subdivision
/// number `subdivision` has the vertex `vertex`, whose degree is not 3.
#[derive(Clone, Copy, Debug, PartialEq, Eq, Structural)]
pub struct DedupError {
    pub subdivision: usize,
    pub vertex: usize,
}

/// The filter lets the key pass: there is no filter, or the key is in it.
pub open spec fn admitted(filter: Option<Seq<Seq<char>>>, key: Seq<char>) -> bool {
    match filter {
        None => true,
        Some(keys) => keys.contains(key),
    }
}

/// The number of the first bucket, from number `from` on, with the key
/// `key`; the number of buckets where there is none.
pub open spec fn position(buckets: Seq<BucketView>, key: Seq<char>, from: int) -> int
    decreases buckets.len() - from,
{
    if from < 0 || from >= buckets.len() {
        buckets.len() as int
    } else if buckets[from].key == key {
        from
    } else {
        position(buckets, key, from + 1)
    }
}

/// One of the entries holds a graph that is isomorphic to `g`.
pub open spec fn has_like(entries: Seq<(GraphView, Seq<CellView>)>, g: GraphView) -> bool {
    exists|e: int| 0 <= e < entries.len() && isomorphic((#[trigger] entries[e]).0, g)
}

/// The buckets after the graph `g` of the subdivision `cells` has been
/// offered to them. Where the bucket with the key of `g` holds a graph
/// isomorphic to `g`, nothing changes. Where it holds none, the pair is
/// added at its end. Where there is no bucket with that key, a new one with
/// this one entry is added behind the others.
pub open spec fn place(buckets: Seq<BucketView>, g: GraphView, cells: Seq<CellView>) -> Seq<
    BucketView,
> {
    let key = key_of(g);
    let b = position(buckets, key, 0);
    if b < buckets.len() {
        if has_like(buckets[b].entries, g) {
            buckets
        } else {
            buckets.update(b, BucketView { key, entries: buckets[b].entries.push((g, cells)) })
        }
    } else {
        buckets.push(BucketView { key, entries: seq![(g, cells)] })
    }
}

/// The buckets after the first `upto` subdivisions have been gone through in
/// their order: the dual graph of each is offered to the buckets, unless the
/// filter does not let its key pass.
pub open spec fn bucketed(
    subdivisions: Seq<Seq<CellView>>,
    filter: Option<Seq<Seq<char>>>,
    upto: int,
) -> Seq<BucketView>
    decreases upto,
{
    if upto <= 0 {
        Seq::empty()
    } else {
        let before = bucketed(subdivisions, filter, upto - 1);
        let g = skeleton(subdivisions[upto - 1]);
        if admitted(filter, key_of(g)) {
            place(before, g, subdivisions[upto - 1])
        } else {
            before
        }
    }
}

/// The number of the first subdivision, from number `from` on, whose dual
/// graph has a vertex of a degree other than 3; the number of subdivisions
/// where there is none.
pub open spec fn first_malformed(subdivisions: Seq<Seq<CellView>>, from: int) -> int
    decreases subdivisions.len() - from,
{
    if from < 0 || from >= subdivisions.len() {
        subdivisions.len() as int
    } else if !skeleton(subdivisions[from]).trivalent() {
        from
    } else {
        first_malformed(subdivisions, from + 1)
    }
}

/// The entry number `e` of the bucket is in order: its graph is the dual
/// graph of its subdivision, is trivalent, and has the key of the bucket.
pub open spec fn entry_ok(bucket: BucketView, e: int) -> bool {
    let g = bucket.entries[e].0;
    &&& g.wf()
    &&& g.trivalent()
    &&& g == skeleton(bucket.entries[e].1)
    &&& key_of(g) == bucket.key
}

/// No two entries of the bucket hold isomorphic graphs.
pub open spec fn apart(bucket: BucketView) -> bool {
    forall|e: int, d: int|
        0 <= e < bucket.entries.len() && 0 <= d < bucket.entries.len() && e != d ==> !isomorphic(
            (#[trigger] bucket.entries[e]).0,
            (#[trigger] bucket.entries[d]).0,
        )
}

/// The buckets are in order: none is empty, no two have the same key, the
/// filter lets every key pass, every entry is in order, and no bucket holds
/// two isomorphic graphs.
pub open spec fn tidy(buckets: Seq<BucketView>, filter: Option<Seq<Seq<char>>>) -> bool {
    &&& forall|b: int| 0 <= b < buckets.len() ==> (#[trigger] buckets[b]).entries.len() > 0
    &&& forall|b: int, c: int|
        0 <= b < buckets.len() && 0 <= c < buckets.len() && b != c ==> (#[trigger] buckets[b]).key
            != (#[trigger] buckets[c]).key
    &&& forall|b: int| 0 <= b < buckets.len() ==> admitted(filter, (#[trigger] buckets[b]).key)
    &&& forall|b: int, e: int|
        0 <= b < buckets.len() && 0 <= e < buckets[b].entries.len() ==> #[trigger] entry_ok(
            buckets[b],
            e,
        )
    &&& forall|b: int| 0 <= b < buckets.len() ==> apart(#[trigger] buckets[b])
}

/// The entry number `e` of the bucket number `b` stands for the graph `g`:
/// the bucket has the key of `g`, and the entry holds a graph isomorphic to
/// `g`.
pub open spec fn stands_for(buckets: Seq<BucketView>, b: int, e: int, g: GraphView) -> bool {
    &&& 0 <= b < buckets.len()
    &&& 0 <= e < buckets[b].entries.len()
    &&& buckets[b].key == key_of(g)
    &&& isomorphic(buckets[b].entries[e].0, g)
}

/// Some entry of some bucket stands for the graph `g`.
pub open spec fn represented(buckets: Seq<BucketView>, g: GraphView) -> bool {
    exists|b: int, e: int| stands_for(buckets, b, e, g)
}

/// Every one of the first `upto` subdivisions whose key the filter lets pass
/// has its dual graph represented in the buckets.
pub open spec fn covers(
    buckets: Seq<BucketView>,
    subdivisions: Seq<Seq<CellView>>,
    filter: Option<Seq<Seq<char>>>,
    upto: int,
) -> bool {
    forall|s: int|
        0 <= s < upto && admitted(filter, key_of(skeleton(#[trigger] subdivisions[s])))
            ==> represented(buckets, skeleton(subdivisions[s]))
}

pub proof fn lemma_position(buckets: Seq<BucketView>, key: Seq<char>, from: int)
    requires
        0 <= from <= buckets.len(),
    ensures
        from <= position(buckets, key, from) <= buckets.len(),
        position(buckets, key, from) < buckets.len() ==> buckets[position(buckets, key, from)].key
            == key,
        forall|b: int| from <= b < position(buckets, key, from) ==> (#[trigger] buckets[b]).key != key,
    decreases buckets.len() - from,
{
    if from < buckets.len() && buckets[from].key != key {
        lemma_position(buckets, key, from + 1);
    }
}

/// Offering a graph to buckets that are in order leaves them in order, with
/// the graph represented and with everything represented that was so before.
pub proof fn lemma_place(
    buckets: Seq<BucketView>,
    filter: Option<Seq<Seq<char>>>,
    g: GraphView,
    cells: Seq<CellView>,
)
    requires
        tidy(buckets, filter),
        g.wf(),
        g.trivalent(),
        g == skeleton(cells),
        admitted(filter, key_of(g)),
    ensures
        tidy(place(buckets, g, cells), filter),
        represented(place(buckets, g, cells), g),
        forall|h: GraphView| #[trigger]
            represented(buckets, h) ==> represented(place(buckets, g, cells), h),
{
    let key = key_of(g);
    let b = position(buckets, key, 0);
    let after = place(buckets, g, cells);
    lemma_position(buckets, key, 0);
    lemma_isomorphic_reflexive(g);
    if b < buckets.len() {
        if has_like(buckets[b].entries, g) {
            let e = choose|e: int|
                0 <= e < buckets[b].entries.len() && isomorphic(
                    (#[trigger] buckets[b].entries[e]).0,
                    g,
                );
            assert(stands_for(after, b, e, g));
        } else {
            let old_entries = buckets[b].entries;
            let grown = BucketView { key, entries: old_entries.push((g, cells)) };
            assert(after[b] == grown);
            assert forall|c: int, e: int|
                0 <= c < after.len() && 0 <= e < after[c].entries.len() implies #[trigger] entry_ok(
                after[c],
                e,
            ) by {
                if c == b {
                    if e < old_entries.len() {
                        assert(entry_ok(buckets[b], e));
                    }
                } else {
                    assert(entry_ok(buckets[c], e));
                }
            }
            assert(apart(grown)) by {
                assert forall|e: int, d: int|
                    0 <= e < grown.entries.len() && 0 <= d < grown.entries.len() && e
                        != d implies !isomorphic(
                    (#[trigger] grown.entries[e]).0,
                    (#[trigger] grown.entries[d]).0,
                ) by {
                    let last = old_entries.len() as int;
                    if e < last && d < last {
                        assert(apart(buckets[b]));
                        assert(grown.entries[e] == old_entries[e]);
                        assert(grown.entries[d] == old_entries[d]);
                    } else if e < last {
                        assert(grown.entries[e] == old_entries[e]);
                        assert(!isomorphic(old_entries[e].0, g));
                    } else {
                        assert(grown.entries[d] == old_entries[d]);
                        assert(!isomorphic(old_entries[d].0, g));
                        assert(entry_ok(buckets[b], d));
                        if isomorphic(g, old_entries[d].0) {
                            lemma_isomorphic_symmetric(g, old_entries[d].0);
                        }
                    }
                }
            }
            assert forall|c: int| 0 <= c < after.len() implies apart(#[trigger] after[c]) by {
                if c != b {
                    assert(apart(buckets[c]));
                }
            }
            assert forall|c: int, d: int|
                0 <= c < after.len() && 0 <= d < after.len() && c != d implies (#[trigger] after[c]).key
                != (#[trigger] after[d]).key by {
                assert(buckets[c].key != buckets[d].key);
            }
            assert forall|c: int| 0 <= c < after.len() implies admitted(
                filter,
                (#[trigger] after[c]).key,
            ) by {
                assert(admitted(filter, buckets[c].key));
            }
            assert forall|c: int| 0 <= c < after.len() implies (#[trigger] after[c]).entries.len()
                > 0 by {
                assert(buckets[c].entries.len() > 0);
            }
            assert(stands_for(after, b, old_entries.len() as int, g));
            assert forall|h: GraphView| #[trigger] represented(buckets, h) implies represented(
                after,
                h,
            ) by {
                let (c, e) = choose|c: int, e: int| stands_for(buckets, c, e, h);
                assert(stands_for(after, c, e, h));
            }
        }
    } else {
        let fresh = BucketView { key, entries: seq![(g, cells)] };
        let last = buckets.len() as int;
        assert(after[last] == fresh);
        assert forall|c: int, e: int|
            0 <= c < after.len() && 0 <= e < after[c].entries.len() implies #[trigger] entry_ok(
            after[c],
            e,
        ) by {
            if c < last {
                assert(entry_ok(buckets[c], e));
            }
        }
        assert forall|c: int| 0 <= c < after.len() implies apart(#[trigger] after[c]) by {
            if c < last {
                assert(apart(buckets[c]));
            }
        }
        assert forall|c: int, d: int|
            0 <= c < after.len() && 0 <= d < after.len() && c != d implies (#[trigger] after[c]).key
            != (#[trigger] after[d]).key by {
            if c < last && d < last {
                assert(buckets[c].key != buckets[d].key);
            } else if c < last {
                assert(buckets[c].key != key);
            } else {
                assert(buckets[d].key != key);
            }
        }
        assert forall|c: int| 0 <= c < after.len() implies admitted(
            filter,
            (#[trigger] after[c]).key,
        ) by {
            if c < last {
                assert(admitted(filter, buckets[c].key));
            }
        }
        assert forall|c: int| 0 <= c < after.len() implies (#[trigger] after[c]).entries.len()
            > 0 by {
            if c < last {
                assert(buckets[c].entries.len() > 0);
            }
        }
        assert(stands_for(after, last, 0, g));
        assert forall|h: GraphView| #[trigger] represented(buckets, h) implies represented(
            after,
            h,
        ) by {
            let (c, e) = choose|c: int, e: int| stands_for(buckets, c, e, h);
            assert(stands_for(after, c, e, h));
        }
    }
}

/// In buckets that are in order, at most one entry stands for a graph.
pub proof fn lemma_one_representative(
    buckets: Seq<BucketView>,
    filter: Option<Seq<Seq<char>>>,
    g: GraphView,
    b: int,
    e: int,
    c: int,
    d: int,
)
    requires
        tidy(buckets, filter),
        g.wf(),
        stands_for(buckets, b, e, g),
        stands_for(buckets, c, d, g),
    ensures
        b == c,
        e == d,
{
    assert(buckets[b].key == buckets[c].key);
    assert(b == c);
    let first = buckets[b].entries[e].0;
    let second = buckets[b].entries[d].0;
    assert(entry_ok(buckets[b], e));
    assert(entry_ok(buckets[b], d));
    lemma_isomorphic_symmetric(second, g);
    lemma_isomorphic_transitive(first, g, second);
    assert(apart(buckets[b]));
}

/// Every graph that the buckets hold is well formed.
pub open spec fn stored_wf(buckets: Seq<Bucket>) -> bool {
    forall|b: int, e: int|
        0 <= b < buckets.len() && 0 <= e < buckets[b].entries@.len() ==> (
        #[trigger] buckets[b].entries@[e]).0.wf()
}

/// Whether the filter lets the key pass.
fn admits(filter: Option<&Vec<String>>, key: &String) -> (pass: bool)
    ensures
        pass == admitted(filter_view(filter), key@),
{
    match filter {
        None => true,
        Some(keys) => {
            let ghost texts = key_texts(keys@);
            let mut i: usize = 0;
            while i < keys.len()
                invariant
                    i <= keys@.len(),
                    texts == key_texts(keys@),
                    filter == Some(keys),
                    forall|k: int| 0 <= k < i ==> texts[k] != key@,
                decreases keys@.len() - i,
            {
                if keys[i] == *key {
                    assert(texts[i as int] == key@);
                    return true;
                }
                i += 1;
            }
            false
        },
    }
}

/// The number of the first bucket with the key `key`, or the number of
/// buckets where there is none.
fn find(buckets: &Vec<Bucket>, key: &String) -> (b: usize)
    ensures
        b == position(bucket_views(buckets@), key@, 0),
        b <= buckets@.len(),
{
    let mut b: usize = 0;
    while b < buckets.len()
        invariant
            b <= buckets@.len(),
            position(bucket_views(buckets@), key@, 0) == position(
                bucket_views(buckets@),
                key@,
                b as int,
            ),
        decreases buckets@.len() - b,
    {
        if buckets[b].key == *key {
            return b;
        }
        b += 1;
    }
    b
}

/// Whether one of the entries holds a graph isomorphic to `graph`.
fn holds_like(entries: &Vec<(Graph, Subdivision)>, graph: &Graph) -> (found: bool)
    requires
        graph.wf(),
        forall|e: int| 0 <= e < entries@.len() ==> (#[trigger] entries@[e]).0.wf(),
    ensures
        found == has_like(entry_views(entries@), graph@),
{
    let mut e: usize = 0;
    while e < entries.len()
        invariant
            e <= entries@.len(),
            graph.wf(),
            forall|k: int| 0 <= k < entries@.len() ==> (#[trigger] entries@[k]).0.wf(),
            forall|k: int|
                0 <= k < e ==> !isomorphic((#[trigger] entry_views(entries@)[k]).0, graph@),
        decreases entries@.len() - e,
    {
        assert(entries@[e as int].0.wf());
        if entries[e].0.is_isomorphic(graph) {
            assert(isomorphic(entry_views(entries@)[e as int].0, graph@));
            return true;
        }
        e += 1;
    }
    false
}

/// Offers a graph with its subdivision to the buckets.
fn insert(buckets: &mut Vec<Bucket>, key: String, graph: Graph, subdivision: Subdivision)
    requires
        key@ == key_of(graph@),
        graph.wf(),
        stored_wf(old(buckets)@),
    ensures
        bucket_views(final(buckets)@) == place(
            bucket_views(old(buckets)@),
            graph@,
            subdivision@,
        ),
        stored_wf(final(buckets)@),
{
    let ghost before = bucket_views(buckets@);
    let b = find(buckets, &key);
    if b < buckets.len() {
        assert forall|e: int| 0 <= e < buckets@[b as int].entries@.len() implies (
        #[trigger] buckets@[b as int].entries@[e]).0.wf() by {}
        if !holds_like(&buckets[b].entries, &graph) {
            let mut bucket = buckets.remove(b);
            proof {
                lemma_position(before, key@, 0);
            }
            let ghost old_entries = entry_views(bucket.entries@);
            bucket.entries.push((graph, subdivision));
            assert(entry_views(bucket.entries@) =~= old_entries.push((graph@, subdivision@)));
            buckets.insert(b, bucket);
            assert(bucket_views(buckets@) =~= place(before, graph@, subdivision@));
        }
    } else {
        let mut entries: Vec<(Graph, Subdivision)> = Vec::new();
        entries.push((graph, subdivision));
        assert(entry_views(entries@) =~= seq![(graph@, subdivision@)]);
        buckets.push(Bucket { key, entries });
        assert(bucket_views(buckets@) =~= place(before, graph@, subdivision@));
    }
}

/// Sorts the dual graphs of the subdivisions into buckets by their keys,
/// keeping of isomorphic graphs the first one met. The subdivisions are gone
/// through in their order: each gets its dual graph and its key; where a
/// filter is given and the key is not in it, the subdivision is passed over;
/// where the bucket of the key holds an isomorphic graph already, the new one
/// is dropped; otherwise the graph is added to the bucket with a copy of its
/// subdivision. Buckets stand in the order in which their keys were first
/// met.
///
/// Sorting fails at the first subdivision whose dual graph has a vertex of a
/// degree other than 3, whether or not the filter would have let it pass.
pub fn dedupe(subdivisions: &Vec<Subdivision>, filter: Option<&Vec<String>>) -> (sorted: Result<
    Vec<Bucket>,
    DedupError,
>)
    ensures
        sorted is Ok <==> first_malformed(crate::flips::subdivision_views(subdivisions@), 0)
            == subdivisions@.len(),
        sorted matches Ok(buckets) ==> {
            let cells = crate::flips::subdivision_views(subdivisions@);
            &&& bucket_views(buckets@) == bucketed(cells, filter_view(filter), cells.len() as int)
            &&& tidy(bucket_views(buckets@), filter_view(filter))
            &&& covers(bucket_views(buckets@), cells, filter_view(filter), cells.len() as int)
            &&& stored_wf(buckets@)
        },
        sorted matches Err(e) ==> {
            let cells = crate::flips::subdivision_views(subdivisions@);
            &&& e.subdivision == first_malformed(cells, 0)
            &&& e.vertex < cells[e.subdivision as int].len()
            &&& degree(skeleton(cells[e.subdivision as int]).edges, e.vertex as int) != 3
            &&& forall|u: int|
                0 <= u < e.vertex ==> #[trigger] degree(
                    skeleton(cells[e.subdivision as int]).edges,
                    u,
                ) == 3
        },
{
    let ghost cells = crate::flips::subdivision_views(subdivisions@);
    let ghost allowed = filter_view(filter);
    let mut buckets: Vec<Bucket> = Vec::new();
    let mut i: usize = 0;
    while i < subdivisions.len()
        invariant
            i <= subdivisions@.len(),
            cells == crate::flips::subdivision_views(subdivisions@),
            allowed == filter_view(filter),
            first_malformed(cells, 0) == first_malformed(cells, i as int),
            bucket_views(buckets@) == bucketed(cells, allowed, i as int),
            tidy(bucket_views(buckets@), allowed),
            covers(bucket_views(buckets@), cells, allowed, i as int),
            stored_wf(buckets@),
        decreases subdivisions@.len() - i,
    {
        assert(cells[i as int] == subdivisions@[i as int]@);
        let graph = match Graph::new_skeleton(&subdivisions[i]) {
            Ok(graph) => graph,
            Err(e) => {
                return Err(DedupError { subdivision: i, vertex: e.vertex });
            },
        };
        let key = graph.categorizing_hash();
        if admits(filter, &key) {
            let ghost before = bucket_views(buckets@);
            let copy = subdivisions[i].clone();
            proof {
                lemma_place(before, allowed, graph@, copy@);
            }
            insert(&mut buckets, key, graph, copy);
            proof {
                let after = bucket_views(buckets@);
                assert forall|s: int|
                    0 <= s < i + 1 && admitted(
                        allowed,
                        key_of(skeleton(#[trigger] cells[s])),
                    ) implies represented(after, skeleton(cells[s])) by {
                    if s < i {
                        assert(represented(before, skeleton(cells[s])));
                    }
                }
            }
        }
        i += 1;
    }
    Ok(buckets)
}

} // verus!
