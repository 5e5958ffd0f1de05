//! Lines and rings put together from edge references and resolved tables.
use std::collections::HashMap;
use vstd::prelude::*;
use vstd::std_specs::hash::*;
use crate::scalar::Position;
use crate::senc::tables::contents;
use crate::senc::EdgeRef;

verus! {

broadcast use group_hash_axioms;

/// How an edge reference says that its edge is walked backwards.
#[derive(Debug, Clone, Copy, PartialEq, Eq, Structural)]
pub enum Heading {
    /// Its `dir` field is 1.
    ByFlag,
    /// Its `edge` field is negative.
    BySign,
}

/// The record identifier spelled by a signed field.
pub open spec fn rcid(v: i32) -> u32 {
    (if v >= 0 { v as int } else { v + 0x1_0000_0000 }) as u32
}

/// Index of the edge that a reference names.
pub open spec fn edge_index(r: EdgeRef, heading: Heading) -> u32 {
    match heading {
        Heading::ByFlag => rcid(r.edge),
        Heading::BySign => (if r.edge >= 0 { r.edge as int } else { -r.edge }) as u32,
    }
}

/// The edge is walked backwards.
pub open spec fn backwards(r: EdgeRef, heading: Heading) -> bool {
    match heading {
        Heading::ByFlag => r.dir == 1,
        Heading::BySign => r.edge < 0,
    }
}

/// `coords` with `p` at the end, unless it already ends there.
pub open spec fn joined(coords: Seq<Position>, p: Position) -> Seq<Position> {
    if coords.len() > 0 && coords.last().coincides(p) {
        coords
    } else {
        coords.push(p)
    }
}

/// `coords` joined to a node, where the table has it.
pub open spec fn joined_node(coords: Seq<Position>, nodes: Map<u32, Position>, v: i32) -> Seq<Position> {
    if nodes.contains_key(rcid(v)) {
        joined(coords, nodes[rcid(v)])
    } else {
        coords
    }
}

/// The points of an edge in the direction of the reference. Edge 0 and an edge
/// that the table lacks have none.
pub open spec fn leg(r: EdgeRef, edges: Map<u32, Seq<Position>>, heading: Heading) -> Seq<Position> {
    let index = edge_index(r, heading);
    if r.edge == 0 || !edges.contains_key(index) {
        Seq::empty()
    } else if backwards(r, heading) {
        edges[index].reverse()
    } else {
        edges[index]
    }
}

/// The first `n` references: each start node, then the points of its edge.
pub open spec fn chain(
    refs: Seq<EdgeRef>,
    n: int,
    edges: Map<u32, Seq<Position>>,
    nodes: Map<u32, Position>,
    heading: Heading,
) -> Seq<Position>
    decreases n,
{
    if n <= 0 {
        Seq::empty()
    } else {
        joined_node(chain(refs, n - 1, edges, nodes, heading), nodes, refs[n - 1].start) + leg(
            refs[n - 1],
            edges,
            heading,
        )
    }
}

/// `coords` with its first point repeated at the end, where it has two points
/// and does not end where it begins.
pub open spec fn closed(coords: Seq<Position>) -> Seq<Position> {
    if coords.len() >= 2 && !coords.last().coincides(coords[0]) {
        coords.push(coords[0])
    } else {
        coords
    }
}

/// The line along all references, up to the end node of the last one.
pub open spec fn line(
    refs: Seq<EdgeRef>,
    edges: Map<u32, Seq<Position>>,
    nodes: Map<u32, Position>,
    heading: Heading,
) -> Seq<Position> {
    let coords = chain(refs, refs.len() as int, edges, nodes, heading);
    if refs.len() > 0 {
        joined_node(coords, nodes, refs.last().end)
    } else {
        coords
    }
}

/// The closed ring along all references.
pub open spec fn ring(
    refs: Seq<EdgeRef>,
    edges: Map<u32, Seq<Position>>,
    nodes: Map<u32, Position>,
    heading: Heading,
) -> Seq<Position> {
    closed(line(refs, edges, nodes, heading))
}

/// First index after the ring that starts at `start`, looked for from `i` on:
/// a ring ends with the reference that returns to its first node, or with the
/// last reference.
pub open spec fn ring_stop(refs: Seq<EdgeRef>, start: int, i: int) -> int
    decreases refs.len() - i,
{
    if i >= refs.len() - 1 {
        refs.len() as int
    } else if refs[i].end == refs[start].start {
        i + 1
    } else {
        ring_stop(refs, start, i + 1)
    }
}

/// The rings of the references from `start` on, as ranges of indices.
pub open spec fn spans(refs: Seq<EdgeRef>, start: int) -> Seq<(int, int)>
    decreases refs.len() - start,
    when 0 <= start
    via spans_decreases
{
    if start >= refs.len() {
        Seq::empty()
    } else {
        seq![(start, ring_stop(refs, start, start))] + spans(refs, ring_stop(refs, start, start))
    }
}

#[via_fn]
proof fn spans_decreases(refs: Seq<EdgeRef>, start: int) {
    if start < refs.len() {
        lemma_ring_stop(refs, start, start);
    }
}

pub proof fn lemma_ring_stop(refs: Seq<EdgeRef>, start: int, i: int)
    requires
        0 <= start <= i < refs.len(),
    ensures
        i < ring_stop(refs, start, i) <= refs.len(),
    decreases refs.len() - i,
{
    if i < refs.len() - 1 && refs[i].end != refs[start].start {
        lemma_ring_stop(refs, start, i + 1);
    }
}

/// Each reference of the range starts where the one before it ends.
pub open spec fn unbroken(refs: Seq<EdgeRef>, from: int, to: int) -> bool {
    forall|k: int| from < k < to ==> refs[k - 1].end == (#[trigger] refs[k]).start
}

/// No ring has a gap between its references.
pub open spec fn sound(refs: Seq<EdgeRef>, start: int) -> bool {
    forall|i: int|
        0 <= i < spans(refs, start).len() ==> unbroken(
            refs,
            (#[trigger] spans(refs, start)[i]).0,
            spans(refs, start)[i].1,
        )
}

/// The coordinates of the rings of the references from `start` on.
pub open spec fn rings(
    refs: Seq<EdgeRef>,
    start: int,
    edges: Map<u32, Seq<Position>>,
    nodes: Map<u32, Position>,
    heading: Heading,
) -> Seq<Seq<Position>> {
    let parts = spans(refs, start);
    Seq::new(parts.len(), |i: int| ring(refs.subrange(parts[i].0, parts[i].1), edges, nodes, heading))
}

/// The contents of a sequence of vectors.
pub open spec fn lists<T>(v: Seq<Vec<T>>) -> Seq<Seq<T>> {
    Seq::new(v.len(), |i: int| v[i]@)
}

fn id_of(v: i32) -> (r: u32)
    ensures
        r == rcid(v),
{
    if v >= 0 {
        v as u32
    } else {
        (v as i64 + 0x1_0000_0000) as u32
    }
}

fn join_node(coords: &mut Vec<Position>, nodes: &HashMap<u32, Position>, v: i32)
    ensures
        final(coords)@ == joined_node(old(coords)@, nodes@, v),
{
    let key: u32 = id_of(v);
    if let Some(p) = nodes.get(&key) {
        let n: usize = coords.len();
        if n == 0 || !coords[n - 1].same(*p) {
            coords.push(*p);
        }
    }
}

fn append_leg(coords: &mut Vec<Position>, r: EdgeRef, edges: &HashMap<u32, Vec<Position>>, heading: Heading)
    ensures
        final(coords)@ == old(coords)@ + leg(r, contents(edges@), heading),
{
    let ghost start = coords@;
    if r.edge == 0 {
        assert(start + Seq::empty() =~= start);
        return;
    }
    let index: u32 = match heading {
        Heading::ByFlag => id_of(r.edge),
        Heading::BySign => if r.edge >= 0 {
            r.edge as u32
        } else {
            (-(r.edge as i64)) as u32
        },
    };
    let reverse: bool = match heading {
        Heading::ByFlag => r.dir == 1,
        Heading::BySign => r.edge < 0,
    };
    match edges.get(&index) {
        Some(points) => {
            let n: usize = points.len();
            let mut i: usize = 0;
            while i < n
                invariant
                    i <= n,
                    n == points@.len(),
                    coords@ == start + (if reverse {
                        points@.reverse().take(i as int)
                    } else {
                        points@.take(i as int)
                    }),
                decreases n - i,
            {
                let k: usize = if reverse { n - 1 - i } else { i };
                coords.push(points[k]);
                i += 1;
                assert(coords@ =~= start + (if reverse {
                    points@.reverse().take(i as int)
                } else {
                    points@.take(i as int)
                }));
            }
            assert(points@.take(n as int) =~= points@);
            assert(points@.reverse().take(n as int) =~= points@.reverse());
        },
        None => {
            assert(start + Seq::empty() =~= start);
        },
    }
}

/// Coordinates along `refs[from..to]`; `close` repeats the first point of a
/// ring at its end.
pub fn build_ring(
    refs: &Vec<EdgeRef>,
    from: usize,
    to: usize,
    edges: &HashMap<u32, Vec<Position>>,
    nodes: &HashMap<u32, Position>,
    heading: Heading,
    close: bool,
) -> (coords: Vec<Position>)
    requires
        from <= to <= refs@.len(),
    ensures
        coords@ == (if close {
            ring(refs@.subrange(from as int, to as int), contents(edges@), nodes@, heading)
        } else {
            line(refs@.subrange(from as int, to as int), contents(edges@), nodes@, heading)
        }),
{
    let ghost part = refs@.subrange(from as int, to as int);
    let mut coords: Vec<Position> = Vec::new();
    let mut i: usize = from;
    while i < to
        invariant
            from <= i <= to <= refs@.len(),
            part == refs@.subrange(from as int, to as int),
            coords@ == chain(part, i - from, contents(edges@), nodes@, heading),
        decreases to - i,
    {
        let r: EdgeRef = refs[i];
        assert(part[i - from] == r);
        join_node(&mut coords, nodes, r.start);
        append_leg(&mut coords, r, edges, heading);
        i += 1;
    }
    if from < to {
        assert(part.last() == refs@[to - 1]);
        join_node(&mut coords, nodes, refs[to - 1].end);
    }
    let n: usize = coords.len();
    if close && n >= 2 && !coords[n - 1].same(coords[0]) {
        let first: Position = coords[0];
        coords.push(first);
    }
    coords
}

proof fn lemma_sound_step(refs: Seq<EdgeRef>, start: int)
    requires
        0 <= start < refs.len(),
    ensures
        sound(refs, start) <==> unbroken(refs, start, ring_stop(refs, start, start)) && sound(
            refs,
            ring_stop(refs, start, start),
        ),
{
    let stop = ring_stop(refs, start, start);
    lemma_ring_stop(refs, start, start);
    let all = spans(refs, start);
    let rest = spans(refs, stop);
    assert(all == seq![(start, stop)] + rest);
    assert(all[0] == (start, stop));
    assert forall|i: int| 0 <= i < rest.len() implies all[i + 1] == rest[i] by {}
    if sound(refs, start) {
        assert(unbroken(refs, all[0].0, all[0].1));
        assert forall|i: int| 0 <= i < rest.len() implies unbroken(refs, (#[trigger] rest[i]).0, rest[i].1) by {
            assert(all[i + 1] == rest[i]);
        }
    }
    if unbroken(refs, start, stop) && sound(refs, stop) {
        assert forall|i: int| 0 <= i < all.len() implies unbroken(refs, (#[trigger] all[i]).0, all[i].1) by {
            if i > 0 {
                assert(all[i] == rest[i - 1]);
            }
        }
    }
}

/// Cuts a list of references into rings and builds each of them; `None` where
/// a ring has a gap.
pub fn build_rings(
    refs: &Vec<EdgeRef>,
    edges: &HashMap<u32, Vec<Position>>,
    nodes: &HashMap<u32, Position>,
    heading: Heading,
) -> (r: Option<Vec<Vec<Position>>>)
    ensures
        match r {
            Some(v) => sound(refs@, 0) && lists(v@) == rings(refs@, 0, contents(edges@), nodes@, heading),
            None => !sound(refs@, 0),
        },
{
    let total: usize = refs.len();
    let mut out: Vec<Vec<Position>> = Vec::new();
    let mut start: usize = 0;
    let ghost parts = spans(refs@, 0);
    assert(spans(refs@, 0) =~= parts.take(0) + spans(refs@, 0));
    while start < total
        invariant
            start <= total,
            total == refs@.len(),
            parts == spans(refs@, 0),
            out@.len() <= parts.len(),
            parts == parts.take(out@.len() as int) + spans(refs@, start as int),
            sound(refs@, 0) <==> sound(refs@, start as int),
            forall|i: int|
                0 <= i < out@.len() ==> (#[trigger] out@[i])@ == ring(
                    refs@.subrange(parts[i].0, parts[i].1),
                    contents(edges@),
                    nodes@,
                    heading,
                ),
        decreases total - start,
    {
        let mut stop: usize = start;
        proof {
            lemma_ring_stop(refs@, start as int, start as int);
            lemma_sound_step(refs@, start as int);
        }
        let ghost end = ring_stop(refs@, start as int, start as int);
        while stop + 1 < total && refs[stop].end != refs[start].start
            invariant
                start <= stop < total,
                total == refs@.len(),
                end == ring_stop(refs@, start as int, stop as int),
                end <= total,
                unbroken(refs@, start as int, stop + 1),
                sound(refs@, 0) <==> (unbroken(refs@, start as int, end) && sound(refs@, end)),
            decreases total - stop,
        {
            proof {
                lemma_ring_stop(refs@, start as int, stop + 1);
            }
            if refs[stop].end != refs[stop + 1].start {
                assert(!unbroken(refs@, start as int, end)) by {
                    assert(refs@[stop + 1 - 1].end != refs@[stop + 1].start);
                }
                return None;
            }
            stop += 1;
        }
        assert(end == stop + 1);
        let coords: Vec<Position> = build_ring(refs, start, stop + 1, edges, nodes, heading, true);
        let ghost k = out@.len() as int;
        proof {
            let rest = spans(refs@, start as int);
            assert(rest == seq![(start as int, end)] + spans(refs@, end));
            assert(parts[k] == rest[0]);
            assert(parts =~= parts.take(k + 1) + spans(refs@, end));
        }
        out.push(coords);
        start = stop + 1;
    }
    assert(spans(refs@, total as int) =~= Seq::empty());
    assert(sound(refs@, total as int));
    assert(parts =~= parts.take(out@.len() as int));
    assert(lists(out@) =~= rings(refs@, 0, contents(edges@), nodes@, heading));
    Some(out)
}

/// The rings of a list of references use up the list: each starts where the one
/// before it stops, from the first reference to the last.
pub proof fn rings_use_every_edge(refs: Seq<EdgeRef>, start: int)
    requires
        0 <= start < refs.len(),
    ensures
        spans(refs, start).len() > 0,
        spans(refs, start)[0].0 == start,
        spans(refs, start).last().1 == refs.len(),
        forall|i: int|
            0 <= i < spans(refs, start).len() ==> (#[trigger] spans(refs, start)[i]).0 < spans(refs, start)[i].1,
        forall|i: int|
            0 < i < spans(refs, start).len() ==> (#[trigger] spans(refs, start)[i]).0 == spans(refs, start)[i - 1].1,
    decreases refs.len() - start,
{
    let stop = ring_stop(refs, start, start);
    lemma_ring_stop(refs, start, start);
    let all = spans(refs, start);
    let rest = spans(refs, stop);
    assert(all == seq![(start, stop)] + rest);
    assert(all[0] == (start, stop));
    if stop < refs.len() {
        rings_use_every_edge(refs, stop);
        assert(all.last() == rest.last());
        assert forall|i: int| 0 <= i < all.len() implies (#[trigger] all[i]).0 < all[i].1 by {
            if i > 0 {
                assert(all[i] == rest[i - 1]);
            }
        }
        assert forall|i: int| 0 < i < all.len() implies (#[trigger] all[i]).0 == all[i - 1].1 by {
            assert(all[i] == rest[i - 1]);
            if i > 1 {
                assert(all[i - 1] == rest[i - 2]);
            }
        }
    } else {
        assert(rest =~= Seq::empty());
    }
}

/// A ring of at least two points ends where it begins, wherever that is a place
/// at all.
pub proof fn rings_end_where_they_begin(
    refs: Seq<EdgeRef>,
    edges: Map<u32, Seq<Position>>,
    nodes: Map<u32, Position>,
    heading: Heading,
)
    requires
        ring(refs, edges, nodes, heading).len() >= 2,
        !ring(refs, edges, nodes, heading)[0].lon.nan(),
        !ring(refs, edges, nodes, heading)[0].lat.nan(),
    ensures
        ring(refs, edges, nodes, heading).last().coincides(ring(refs, edges, nodes, heading)[0]),
{
}

// ── What rings are made of ───────────────────────────────────────────────────

/// Ring `k` is a proper cut: it ends with the first reference that returns to the
/// node where the ring began. Only the last ring may lack such a reference.
pub open spec fn is_cut(refs: Seq<EdgeRef>, cuts: Seq<int>, k: int) -> bool {
    &&& 0 <= cuts[k] < cuts[k + 1] <= refs.len()
    &&& forall|i: int| cuts[k] <= i < cuts[k + 1] - 1 ==> (#[trigger] refs[i]).end != refs[cuts[k]].start
    &&& k < cuts.len() - 2 ==> refs[cuts[k + 1] - 1].end == refs[cuts[k]].start
}

/// `cuts` cut a whole list of references into rings.
pub open spec fn are_cuts(refs: Seq<EdgeRef>, cuts: Seq<int>) -> bool {
    &&& cuts.len() >= 2
    &&& cuts[0] == 0
    &&& cuts.last() == refs.len()
    &&& forall|k: int| 0 <= k < cuts.len() - 1 ==> #[trigger] is_cut(refs, cuts, k)
}

/// The references of ring `k`.
pub open spec fn ring_refs(refs: Seq<EdgeRef>, cuts: Seq<int>, k: int) -> Seq<EdgeRef> {
    refs.subrange(cuts[k], cuts[k + 1])
}

/// Each reference of a ring starts at the node where the one before it ends.
pub open spec fn connects(part: Seq<EdgeRef>) -> bool {
    forall|i: int| 0 < i < part.len() ==> part[i - 1].end == (#[trigger] part[i]).start
}

/// Every ring connects.
pub open spec fn all_connect(refs: Seq<EdgeRef>, cuts: Seq<int>) -> bool {
    forall|k: int| 0 <= k < cuts.len() - 1 ==> connects(#[trigger] ring_refs(refs, cuts, k))
}

proof fn lemma_stop_is_cut(refs: Seq<EdgeRef>, cuts: Seq<int>, k: int, i: int)
    requires
        are_cuts(refs, cuts),
        0 <= k < cuts.len() - 1,
        cuts[k] <= i < cuts[k + 1],
    ensures
        ring_stop(refs, cuts[k], i) == cuts[k + 1],
    decreases cuts[k + 1] - i,
{
    assert(is_cut(refs, cuts, k));
    if i < cuts[k + 1] - 1 {
        assert(refs[i].end != refs[cuts[k]].start);
        lemma_stop_is_cut(refs, cuts, k, i + 1);
    } else if k < cuts.len() - 2 {
        assert(is_cut(refs, cuts, k + 1));
    } else {
        assert(cuts[k + 1] == refs.len());
    }
}

proof fn lemma_spans_are_cuts(refs: Seq<EdgeRef>, cuts: Seq<int>, k: int)
    requires
        are_cuts(refs, cuts),
        0 <= k < cuts.len(),
    ensures
        spans(refs, cuts[k]).len() == cuts.len() - 1 - k,
        forall|j: int|
            0 <= j < spans(refs, cuts[k]).len() ==> #[trigger] spans(refs, cuts[k])[j] == (cuts[k + j], cuts[k + j
                + 1]),
    decreases cuts.len() - k,
{
    if k < cuts.len() - 1 {
        assert(is_cut(refs, cuts, k));
        lemma_stop_is_cut(refs, cuts, k, cuts[k]);
        lemma_spans_are_cuts(refs, cuts, k + 1);
        let all = spans(refs, cuts[k]);
        let rest = spans(refs, cuts[k + 1]);
        assert(all == seq![(cuts[k], cuts[k + 1])] + rest);
        assert forall|j: int| 0 <= j < all.len() implies #[trigger] all[j] == (cuts[k + j], cuts[k + j + 1]) by {
            if j > 0 {
                assert(all[j] == rest[j - 1]);
                assert(rest[j - 1] == (cuts[k + 1 + (j - 1)], cuts[k + 1 + (j - 1) + 1]));
            }
        }
    } else {
        assert(cuts[k] == refs.len());
        assert(spans(refs, cuts[k]) =~= Seq::empty());
    }
}

/// The rings of a list of references are the closed lines along its cuts, one for
/// each, in their order. The list is sound where each reference of a ring starts
/// at the node where the one before it ends.
pub proof fn rings_follow_the_cuts(
    refs: Seq<EdgeRef>,
    cuts: Seq<int>,
    edges: Map<u32, Seq<Position>>,
    nodes: Map<u32, Position>,
    heading: Heading,
)
    requires
        are_cuts(refs, cuts),
    ensures
        rings(refs, 0, edges, nodes, heading).len() == cuts.len() - 1,
        forall|k: int|
            0 <= k < cuts.len() - 1 ==> #[trigger] rings(refs, 0, edges, nodes, heading)[k] == closed(
                line(ring_refs(refs, cuts, k), edges, nodes, heading),
            ),
        sound(refs, 0) <==> all_connect(refs, cuts),
{
    lemma_spans_are_cuts(refs, cuts, 0);
    let all = spans(refs, 0);
    assert forall|k: int| 0 <= k < cuts.len() - 1 implies unbroken(refs, all[k].0, all[k].1) == connects(
        #[trigger] ring_refs(refs, cuts, k),
    ) by {
        assert(all[k] == (cuts[0 + k], cuts[0 + k + 1]));
        assert(is_cut(refs, cuts, k));
        let part = ring_refs(refs, cuts, k);
        let from = cuts[k];
        let to = cuts[k + 1];
        if unbroken(refs, from, to) {
            assert forall|i: int| 0 < i < part.len() implies part[i - 1].end == (#[trigger] part[i]).start by {
                assert(refs[from + i - 1].end == refs[from + i].start);
            }
        }
        if connects(part) {
            assert forall|i: int| from < i < to implies refs[i - 1].end == (#[trigger] refs[i]).start by {
                assert(part[i - from] == refs[i]);
                assert(part[i - from - 1] == refs[i - 1]);
            }
        }
    }
    if all_connect(refs, cuts) {
        assert forall|j: int| 0 <= j < all.len() implies unbroken(refs, (#[trigger] all[j]).0, all[j].1) by {
            assert(connects(ring_refs(refs, cuts, j)));
        }
    }
    if sound(refs, 0) {
        assert forall|k: int| 0 <= k < cuts.len() - 1 implies connects(#[trigger] ring_refs(refs, cuts, k)) by {
            assert(unbroken(refs, all[k].0, all[k].1));
        }
    }
}

/// A path walks along `pts` from index `at` on, right after the place `node` where
/// that is known.
pub open spec fn walks(path: Seq<Position>, at: int, node: Option<Position>, pts: Seq<Position>) -> bool {
    &&& 0 <= at
    &&& at + pts.len() <= path.len()
    &&& path.subrange(at, at + pts.len()) == pts
    &&& node matches Some(p) ==> at > 0 && (path[at - 1] == p || path[at - 1].coincides(p))
}

/// Points from the last to the first where the flag is 1, else as they are.
pub open spec fn along(pts: Seq<Position>, flag: i32) -> Seq<Position> {
    if flag == 1 {
        pts.reverse()
    } else {
        pts
    }
}

/// The place of a node, where the table has it.
pub open spec fn node_place(nodes: Map<u32, Position>, v: i32) -> Option<Position> {
    if v >= 0 && nodes.contains_key(v as u32) {
        Some(nodes[v as u32])
    } else {
        None
    }
}

proof fn lemma_chain_grows(
    refs: Seq<EdgeRef>,
    m: int,
    n: int,
    edges: Map<u32, Seq<Position>>,
    nodes: Map<u32, Position>,
    heading: Heading,
)
    requires
        0 <= m <= n,
    ensures
        chain(refs, m, edges, nodes, heading).len() <= chain(refs, n, edges, nodes, heading).len(),
        chain(refs, n, edges, nodes, heading).take(chain(refs, m, edges, nodes, heading).len() as int) == chain(
            refs,
            m,
            edges,
            nodes,
            heading,
        ),
    decreases n,
{
    let short = chain(refs, m, edges, nodes, heading);
    let long = chain(refs, n, edges, nodes, heading);
    if m == n {
        assert(long.take(long.len() as int) =~= long);
    } else {
        lemma_chain_grows(refs, m, n - 1, edges, nodes, heading);
        let mid = chain(refs, n - 1, edges, nodes, heading);
        assert(long.take(short.len() as int) =~= mid.take(short.len() as int));
    }
}

/// A reference of a line is walked in the line, from its start node along the
/// points of its edge: as the table has them, or backwards where the reference
/// says so, by a flag of 1 or by a negative number.
pub proof fn each_edge_is_walked(
    refs: Seq<EdgeRef>,
    i: int,
    edges: Map<u32, Seq<Position>>,
    nodes: Map<u32, Position>,
    heading: Heading,
    pts: Seq<Position>,
)
    requires
        0 <= i < refs.len(),
        ({
            let e = refs[i].edge;
            ||| heading is ByFlag && e > 0 && edges.contains_key(e as u32) && refs[i].dir != 1 && pts == edges[e as u32]
            ||| heading is ByFlag && e > 0 && edges.contains_key(e as u32) && refs[i].dir == 1 && pts == edges[
                e as u32].reverse()
            ||| heading is BySign && e > 0 && edges.contains_key(e as u32) && pts == edges[e as u32]
            ||| heading is BySign && e < 0 && edges.contains_key((-e) as u32) && pts == edges[(-e) as u32].reverse()
            ||| e == 0 && pts == Seq::<Position>::empty()
        }),
    ensures
        exists|at: int| walks(line(refs, edges, nodes, heading), at, node_place(nodes, refs[i].start), pts),
        exists|at: int| walks(closed(line(refs, edges, nodes, heading)), at, node_place(nodes, refs[i].start), pts),
{
    let before = chain(refs, i, edges, nodes, heading);
    let there = joined_node(before, nodes, refs[i].start);
    let after = chain(refs, i + 1, edges, nodes, heading);
    let whole = chain(refs, refs.len() as int, edges, nodes, heading);
    let path = line(refs, edges, nodes, heading);
    let loop_path = closed(path);
    let at = there.len() as int;
    assert(leg(refs[i], edges, heading) =~= pts);
    assert(after == there + pts);
    lemma_chain_grows(refs, i + 1, refs.len() as int, edges, nodes, heading);
    assert(path.take(whole.len() as int) =~= whole);
    assert(loop_path.take(path.len() as int) =~= path);
    assert forall|k: int| 0 <= k < after.len() implies path[k] == after[k] && loop_path[k] == after[k] by {
        assert(whole.take(after.len() as int)[k] == after[k]);
        assert(path.take(whole.len() as int)[k] == whole[k]);
        assert(loop_path.take(path.len() as int)[k] == path[k]);
    }
    assert(path.subrange(at, at + pts.len()) =~= pts);
    assert(loop_path.subrange(at, at + pts.len()) =~= pts);
    if node_place(nodes, refs[i].start) is Some {
        assert(rcid(refs[i].start) == refs[i].start as u32);
        assert(after[at - 1] == there[at - 1]);
    }
    assert(walks(path, at, node_place(nodes, refs[i].start), pts));
    assert(walks(loop_path, at, node_place(nodes, refs[i].start), pts));
}

/// A line ends at the end node of its last reference, where the table has it.
pub proof fn lines_end_at_the_last_node(
    refs: Seq<EdgeRef>,
    edges: Map<u32, Seq<Position>>,
    nodes: Map<u32, Position>,
    heading: Heading,
)
    requires
        refs.len() > 0,
        node_place(nodes, refs.last().end) is Some,
    ensures
        ({
            let path = line(refs, edges, nodes, heading);
            let p = node_place(nodes, refs.last().end)->0;
            path.len() > 0 && (path.last() == p || path.last().coincides(p))
        }),
{
    assert(rcid(refs.last().end) == refs.last().end as u32);
}

/// `p` is a node that a reference names, or a point of an edge that it names.
pub open spec fn named_by(r: EdgeRef, edges: Map<u32, Seq<Position>>, nodes: Map<u32, Position>, p: Position) -> bool {
    ||| exists|k: u32| #[trigger] nodes.contains_key(k) && nodes[k] == p && (k == rcid(r.start) || k == rcid(r.end))
    ||| exists|k: u32| #[trigger]
        edges.contains_key(k) && edges[k].contains(p) && (k == rcid(r.edge) || k == -r.edge)
}

proof fn lemma_chain_is_named(
    refs: Seq<EdgeRef>,
    n: int,
    edges: Map<u32, Seq<Position>>,
    nodes: Map<u32, Position>,
    heading: Heading,
    k: int,
)
    requires
        0 <= n <= refs.len(),
        0 <= k < chain(refs, n, edges, nodes, heading).len(),
    ensures
        exists|i: int| 0 <= i < n && named_by(#[trigger] refs[i], edges, nodes, chain(refs, n, edges, nodes, heading)[k]),
    decreases n,
{
    if n > 0 {
        let r = refs[n - 1];
        let before = chain(refs, n - 1, edges, nodes, heading);
        let there = joined_node(before, nodes, r.start);
        let l = leg(r, edges, heading);
        let all = chain(refs, n, edges, nodes, heading);
        if k < before.len() {
            lemma_chain_is_named(refs, n - 1, edges, nodes, heading, k);
            assert(all[k] == before[k]);
            let i = choose|i: int| 0 <= i < n - 1 && named_by(#[trigger] refs[i], edges, nodes, before[k]);
            assert(named_by(refs[i], edges, nodes, all[k]));
        } else if k < there.len() {
            assert(nodes.contains_key(rcid(r.start)));
            assert(named_by(refs[n - 1], edges, nodes, all[k]));
        } else {
            let id = edge_index(r, heading);
            let j = k - there.len();
            assert(all[k] == l[j]);
            if backwards(r, heading) {
                assert(edges[id][edges[id].len() - 1 - j] == l[j]);
            } else {
                assert(edges[id][j] == l[j]);
            }
            assert(edges.contains_key(id) && edges[id].contains(all[k]));
            assert(named_by(refs[n - 1], edges, nodes, all[k]));
        }
    }
}

/// Nothing else lies on a line: every point is a node or a point of an edge that
/// one of its references names.
pub proof fn lines_hold_nothing_else(
    refs: Seq<EdgeRef>,
    edges: Map<u32, Seq<Position>>,
    nodes: Map<u32, Position>,
    heading: Heading,
    k: int,
)
    requires
        0 <= k < line(refs, edges, nodes, heading).len(),
    ensures
        exists|i: int|
            0 <= i < refs.len() && named_by(#[trigger] refs[i], edges, nodes, line(refs, edges, nodes, heading)[k]),
{
    let n = refs.len() as int;
    let whole = chain(refs, n, edges, nodes, heading);
    let path = line(refs, edges, nodes, heading);
    if k < whole.len() {
        lemma_chain_is_named(refs, n, edges, nodes, heading, k);
        assert(path[k] == whole[k]);
        let i = choose|i: int| 0 <= i < n && named_by(#[trigger] refs[i], edges, nodes, whole[k]);
        assert(named_by(refs[i], edges, nodes, path[k]));
    } else {
        assert(nodes.contains_key(rcid(refs.last().end)));
        assert(named_by(refs[n - 1], edges, nodes, path[k]));
    }
}

/// The points that a reference walks along: those of its edge, backwards where it says
/// so, and none where it names no edge or one that the table lacks.
pub open spec fn is_leg(r: EdgeRef, edges: Map<u32, Seq<Position>>, heading: Heading, pts: Seq<Position>) -> bool {
    match heading {
        Heading::ByFlag => if r.edge > 0 && edges.contains_key(r.edge as u32) {
            pts == along(edges[r.edge as u32], r.dir)
        } else {
            r.edge >= 0 && pts.len() == 0
        },
        Heading::BySign => if r.edge > 0 && edges.contains_key(r.edge as u32) {
            pts == edges[r.edge as u32]
        } else if r.edge < 0 && edges.contains_key((-r.edge) as u32) {
            pts == edges[(-r.edge) as u32].reverse()
        } else {
            pts.len() == 0
        },
    }
}

/// What a node adds to a path at an index: itself, unless the path is there already.
pub open spec fn stop_at(path: Seq<Position>, at: int, node: Option<Position>) -> Seq<Position> {
    match node {
        Some(p) if !(at > 0 && path[at - 1].coincides(p)) => seq![p],
        _ => Seq::empty(),
    }
}

/// `ends` divides a path into one section for each reference: its start node, where
/// the path is not there already, and the points that it walks along.
pub open spec fn is_section(
    path: Seq<Position>,
    ends: Seq<int>,
    refs: Seq<EdgeRef>,
    nodes: Map<u32, Position>,
    legs: Seq<Seq<Position>>,
    i: int,
) -> bool {
    &&& 0 <= ends[i] <= ends[i + 1] <= path.len()
    &&& path.subrange(ends[i], ends[i + 1]) == stop_at(path, ends[i], node_place(nodes, refs[i].start)) + legs[i]
}

proof fn lemma_sections(
    refs: Seq<EdgeRef>,
    n: int,
    edges: Map<u32, Seq<Position>>,
    nodes: Map<u32, Position>,
    heading: Heading,
    legs: Seq<Seq<Position>>,
) -> (ends: Seq<int>)
    requires
        0 <= n <= refs.len(),
        legs.len() == refs.len(),
        forall|i: int| 0 <= i < refs.len() ==> is_leg(refs[i], edges, heading, #[trigger] legs[i]) && refs[i].start >= 0,
    ensures
        ends.len() == n + 1,
        ends[0] == 0,
        ends[n] == chain(refs, n, edges, nodes, heading).len(),
        forall|i: int|
            0 <= i < n ==> #[trigger] is_section(chain(refs, n, edges, nodes, heading), ends, refs, nodes, legs, i),
    decreases n,
{
    if n <= 0 {
        seq![0int]
    } else {
        let before = chain(refs, n - 1, edges, nodes, heading);
        let all = chain(refs, n, edges, nodes, heading);
        let short = lemma_sections(refs, n - 1, edges, nodes, heading, legs);
        let ends = short.push(all.len() as int);
        let r = refs[n - 1];
        assert(is_leg(refs[n - 1], edges, heading, legs[n - 1]));
        assert(leg(r, edges, heading) =~= legs[n - 1]);
        assert(rcid(r.start) == r.start as u32);
        assert forall|i: int| 0 <= i < n implies #[trigger] is_section(all, ends, refs, nodes, legs, i) by {
            if i < n - 1 {
                assert(is_section(before, short, refs, nodes, legs, i));
                assert(ends[i] == short[i] && ends[i + 1] == short[i + 1]);
                assert(all.subrange(ends[i], ends[i + 1]) =~= before.subrange(ends[i], ends[i + 1]));
                if ends[i] > 0 {
                    assert(all[ends[i] - 1] == before[ends[i] - 1]);
                }
            } else {
                let at = before.len() as int;
                assert(ends[i] == at && ends[i + 1] == all.len());
                if at > 0 {
                    assert(all[at - 1] == before.last());
                }
                assert(all.subrange(at, all.len() as int) =~= stop_at(all, at, node_place(nodes, r.start)) + legs[i]);
            }
        }
        ends
    }
}

/// A line consists of its references one after the other, and of the end node of the
/// last one: each adds its start node, unless the line is there already, and the
/// points that it walks along, and nothing else. No node is repeated, and none is
/// left out.
pub proof fn lines_consist_of_their_references(
    refs: Seq<EdgeRef>,
    edges: Map<u32, Seq<Position>>,
    nodes: Map<u32, Position>,
    heading: Heading,
    legs: Seq<Seq<Position>>,
) -> (ends: Seq<int>)
    requires
        refs.len() > 0,
        legs.len() == refs.len(),
        forall|i: int| 0 <= i < refs.len() ==> is_leg(refs[i], edges, heading, #[trigger] legs[i]) && refs[i].start >= 0,
        refs.last().end >= 0,
    ensures
        ends.len() == refs.len() + 1,
        ends[0] == 0,
        forall|i: int|
            0 <= i < refs.len() ==> #[trigger] is_section(line(refs, edges, nodes, heading), ends, refs, nodes, legs, i),
        ({
            let path = line(refs, edges, nodes, heading);
            path.skip(ends.last()) == stop_at(path, ends.last(), node_place(nodes, refs.last().end))
        }),
{
    let n = refs.len() as int;
    let whole = chain(refs, n, edges, nodes, heading);
    let path = line(refs, edges, nodes, heading);
    let ends = lemma_sections(refs, n, edges, nodes, heading, legs);
    let at = whole.len() as int;
    assert(rcid(refs.last().end) == refs.last().end as u32);
    assert(forall|k: int| 0 <= k < at ==> path[k] == whole[k]);
    assert forall|i: int| 0 <= i < n implies #[trigger] is_section(path, ends, refs, nodes, legs, i) by {
        assert(is_section(whole, ends, refs, nodes, legs, i));
        assert(path.subrange(ends[i], ends[i + 1]) =~= whole.subrange(ends[i], ends[i + 1]));
        if ends[i] > 0 {
            assert(path[ends[i] - 1] == whole[ends[i] - 1]);
        }
    }
    if at > 0 {
        assert(path[at - 1] == whole.last());
    }
    assert(path.skip(at) =~= stop_at(path, at, node_place(nodes, refs.last().end)));
    ends
}

} // verus!
