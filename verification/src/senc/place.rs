//! Vector tables in degrees.
//!
//! The projection from metres to degrees is not part of the library: it is
//! handed in as a function of a stored point and the bounds of its cell.
use std::collections::HashMap;
use vstd::prelude::*;
use vstd::std_specs::hash::*;
use vstd::std_specs::iter::IteratorSpec;
use crate::bbox::Bbox;
use crate::s57::Sounding;
use crate::scalar::Position;
use crate::senc::tables::contents;
use crate::senc::{RawSounding, SmPoint};

verus! {

broadcast use group_hash_axioms;

/// The projection is defined on every stored point.
pub open spec fn projects_all<F: Fn(SmPoint, Bbox) -> Position>(from_sm: F, bounds: Bbox) -> bool {
    forall|p: SmPoint| call_requires(from_sm, (p, bounds))
}

/// The projection put `p` at `out`.
pub open spec fn placed<F: Fn(SmPoint, Bbox) -> Position>(
    from_sm: F,
    bounds: Bbox,
    p: SmPoint,
    out: Position,
) -> bool {
    call_ensures(from_sm, (p, bounds), out)
}

/// The projection put the points of `list` at those of `out`, one for one.
pub open spec fn placed_list<F: Fn(SmPoint, Bbox) -> Position>(
    from_sm: F,
    bounds: Bbox,
    list: Seq<SmPoint>,
    out: Seq<Position>,
) -> bool {
    out.len() == list.len() && forall|i: int|
        0 <= i < list.len() ==> placed(from_sm, bounds, list[i], #[trigger] out[i])
}

/// `out` holds the nodes of `nodes`, each where the projection put it.
pub open spec fn placed_nodes<F: Fn(SmPoint, Bbox) -> Position>(
    from_sm: F,
    bounds: Bbox,
    nodes: Map<u32, SmPoint>,
    out: Map<u32, Position>,
) -> bool {
    out.dom() == nodes.dom() && forall|k: u32| #[trigger]
        out.contains_key(k) ==> placed(from_sm, bounds, nodes[k], out[k])
}

/// `out` holds the edges of `edges`, each point where the projection put it.
pub open spec fn placed_edges<F: Fn(SmPoint, Bbox) -> Position>(
    from_sm: F,
    bounds: Bbox,
    edges: Map<u32, Seq<SmPoint>>,
    out: Map<u32, Seq<Position>>,
) -> bool {
    out.dom() == edges.dom() && forall|k: u32| #[trigger]
        out.contains_key(k) ==> placed_list(from_sm, bounds, edges[k], out[k])
}

pub(crate) fn place_list<F: Fn(SmPoint, Bbox) -> Position>(
    list: &Vec<SmPoint>,
    bounds: Bbox,
    from_sm: &F,
) -> (out: Vec<Position>)
    requires
        projects_all(*from_sm, bounds),
    ensures
        placed_list(*from_sm, bounds, list@, out@),
{
    let mut out: Vec<Position> = Vec::new();
    let mut i: usize = 0;
    while i < list.len()
        invariant
            i <= list@.len(),
            projects_all(*from_sm, bounds),
            out@.len() == i,
            forall|k: int| 0 <= k < i ==> placed(*from_sm, bounds, list@[k], #[trigger] out@[k]),
        decreases list@.len() - i,
    {
        out.push(from_sm(list[i], bounds));
        i += 1;
    }
    out
}

pub(crate) fn place_soundings<F: Fn(SmPoint, Bbox) -> Position>(
    list: &Vec<RawSounding>,
    bounds: Bbox,
    from_sm: &F,
) -> (out: Vec<Sounding>)
    requires
        projects_all(*from_sm, bounds),
    ensures
        out@.len() == list@.len(),
        forall|i: int|
            0 <= i < list@.len() ==> (#[trigger] out@[i]).depth == list@[i].depth && placed(
                *from_sm,
                bounds,
                list@[i].at,
                out@[i].at,
            ),
{
    let mut out: Vec<Sounding> = Vec::new();
    let mut i: usize = 0;
    while i < list.len()
        invariant
            i <= list@.len(),
            projects_all(*from_sm, bounds),
            out@.len() == i,
            forall|k: int|
                0 <= k < i ==> (#[trigger] out@[k]).depth == list@[k].depth && placed(
                    *from_sm,
                    bounds,
                    list@[k].at,
                    out@[k].at,
                ),
        decreases list@.len() - i,
    {
        let at: Position = from_sm(list[i].at, bounds);
        out.push(Sounding { at, depth: list[i].depth });
        i += 1;
    }
    out
}

/// Projects the nodes of a cell.
pub fn place_nodes<F: Fn(SmPoint, Bbox) -> Position>(
    nodes: &HashMap<u32, SmPoint>,
    bounds: Bbox,
    from_sm: &F,
) -> (out: HashMap<u32, Position>)
    requires
        projects_all(*from_sm, bounds),
    ensures
        placed_nodes(*from_sm, bounds, nodes@, out@),
{
    let mut out: HashMap<u32, Position> = HashMap::new();
    for pair in it: nodes.iter()
        invariant
            projects_all(*from_sm, bounds),
            forall|i: int|
                #![trigger it.seq()[i]]
                0 <= i < it.seq().len() ==> nodes@.contains_key(*it.seq()[i].0) && nodes@[*it.seq()[i].0]
                    == *it.seq()[i].1,
            forall|k: u32| #[trigger] nodes@.contains_key(k) ==> it.seq().contains((&k, &nodes@[k])),
            forall|k: u32| #[trigger]
                out@.contains_key(k) ==> nodes@.contains_key(k) && placed(*from_sm, bounds, nodes@[k], out@[k]),
            forall|i: int| 0 <= i < it.index@ ==> out@.contains_key(*(#[trigger] it.seq()[i]).0),
    {
        let k: u32 = *pair.0;
        let placed_at: Position = from_sm(*pair.1, bounds);
        out.insert(k, placed_at);
    }
    assert(out@.dom() =~= nodes@.dom());
    out
}

/// Projects the edges of a cell.
pub fn place_edges<F: Fn(SmPoint, Bbox) -> Position>(
    edges: &HashMap<u32, Vec<SmPoint>>,
    bounds: Bbox,
    from_sm: &F,
) -> (out: HashMap<u32, Vec<Position>>)
    requires
        projects_all(*from_sm, bounds),
    ensures
        placed_edges(*from_sm, bounds, contents(edges@), contents(out@)),
{
    let mut out: HashMap<u32, Vec<Position>> = HashMap::new();
    for pair in it: edges.iter()
        invariant
            projects_all(*from_sm, bounds),
            forall|i: int|
                #![trigger it.seq()[i]]
                0 <= i < it.seq().len() ==> edges@.contains_key(*it.seq()[i].0) && edges@[*it.seq()[i].0]
                    == *it.seq()[i].1,
            forall|k: u32| #[trigger] edges@.contains_key(k) ==> it.seq().contains((&k, &edges@[k])),
            forall|k: u32| #[trigger]
                out@.contains_key(k) ==> edges@.contains_key(k) && placed_list(
                    *from_sm,
                    bounds,
                    edges@[k]@,
                    out@[k]@,
                ),
            forall|i: int| 0 <= i < it.index@ ==> out@.contains_key(*(#[trigger] it.seq()[i]).0),
    {
        let k: u32 = *pair.0;
        let points: Vec<Position> = place_list(pair.1, bounds, from_sm);
        out.insert(k, points);
    }
    assert(contents(out@).dom() =~= contents(edges@).dom());
    out
}

/// Tables are placed entry by entry and point by point: no entry is lost or added,
/// and each point is where the projection put the one of its index.
pub proof fn tables_are_placed_point_by_point<F: Fn(SmPoint, Bbox) -> Position>(
    from_sm: F,
    bounds: Bbox,
    nodes: Map<u32, SmPoint>,
    edges: Map<u32, Seq<SmPoint>>,
    places: Map<u32, Position>,
    paths: Map<u32, Seq<Position>>,
    k: u32,
    i: int,
)
    requires
        placed_nodes(from_sm, bounds, nodes, places),
        placed_edges(from_sm, bounds, edges, paths),
    ensures
        places.contains_key(k) <==> nodes.contains_key(k),
        paths.contains_key(k) <==> edges.contains_key(k),
        nodes.contains_key(k) ==> call_ensures(from_sm, (nodes[k], bounds), places[k]),
        edges.contains_key(k) ==> paths[k].len() == edges[k].len() && (0 <= i < edges[k].len() ==> call_ensures(
            from_sm,
            (edges[k][i], bounds),
            paths[k][i],
        )),
{
    assert(places.contains_key(k) == places.dom().contains(k));
    assert(paths.contains_key(k) == paths.dom().contains(k));
    if edges.contains_key(k) {
        assert(placed_list(from_sm, bounds, edges[k], paths[k]));
        if 0 <= i < edges[k].len() {
            assert(placed(from_sm, bounds, edges[k][i], paths[k][i]));
        }
    }
}

} // verus!
