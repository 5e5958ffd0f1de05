//! Vector tables: connected nodes, and the points of the edges between them.
use std::collections::HashMap;
use vstd::prelude::*;
use vstd::std_specs::hash::*;
use crate::bytes::{le32, read_u32};
use crate::senc::{
    fit, fitting, point_size, read_sm_point, read_sm_points, sm_point_at, sm_points_at, stride, Coding,
    SmPoint,
};

verus! {

broadcast use group_hash_axioms;

/// The tables of a cell. A later entry replaces an earlier one of its index.
#[derive(Debug)]
pub struct Tables {
    /// Points of each edge between its end nodes, which are not repeated.
    pub edges: HashMap<u32, Vec<SmPoint>>,
    /// Connected nodes.
    pub nodes: HashMap<u32, SmPoint>,
}

/// What a [`Tables`] says.
#[verifier::ext_equal]
pub struct TablesView {
    pub edges: Map<u32, Seq<SmPoint>>,
    pub nodes: Map<u32, SmPoint>,
}

/// The contents of the vectors of a map.
pub open spec fn contents<T>(m: Map<u32, Vec<T>>) -> Map<u32, Seq<T>> {
    m.map_values(|v: Vec<T>| v@)
}

impl View for Tables {
    type V = TablesView;

    open spec fn view(&self) -> TablesView {
        TablesView { edges: contents(self.edges@), nodes: self.nodes@ }
    }
}

/// `edges` after the up to `n` entries from `at` on. An entry is an edge index,
/// a point count and the points; one that is cut short keeps the points that it
/// has, and what is too short for an entry's two numbers is left alone.
pub open spec fn with_edges(
    edges: Map<u32, Seq<SmPoint>>,
    s: Seq<u8>,
    at: int,
    n: int,
    coding: Coding,
) -> Map<u32, Seq<SmPoint>>
    decreases n,
{
    if n <= 0 || at + 8 > s.len() {
        edges
    } else {
        let count = fitting(s, at + 8, stride(coding), le32(s, at + 4) as int);
        with_edges(
            edges.insert(le32(s, at), sm_points_at(s, at + 8, coding, count)),
            s,
            at + 8 + stride(coding) * count,
            n - 1,
            coding,
        )
    }
}

/// `nodes` after the up to `n` entries from `at` on. An entry is a node index
/// and a point; one that is cut short is left alone.
pub open spec fn with_nodes(nodes: Map<u32, SmPoint>, s: Seq<u8>, at: int, n: int, coding: Coding) -> Map<u32, SmPoint>
    decreases n,
{
    if n <= 0 || at + 4 + stride(coding) > s.len() {
        nodes
    } else {
        with_nodes(
            nodes.insert(le32(s, at), sm_point_at(s, at + 4, coding)),
            s,
            at + 4 + stride(coding),
            n - 1,
            coding,
        )
    }
}

impl Tables {
    /// Empty tables.
    pub fn new() -> (t: Tables)
        ensures
            t@ == (TablesView { edges: Map::empty(), nodes: Map::empty() }),
    {
        let t = Tables { edges: HashMap::new(), nodes: HashMap::new() };
        assert(t@.edges =~= Map::empty());
        assert(t@.nodes =~= Map::empty());
        t
    }

    /// Adds the edges of a table whose entry count is at `at`.
    pub fn add_edges(&mut self, p: &[u8], at: usize, coding: Coding)
        requires
            at + 4 <= p@.len(),
        ensures
            final(self)@ == (TablesView {
                edges: with_edges(old(self)@.edges, p@, at + 4, le32(p@, at as int) as int, coding),
                nodes: old(self)@.nodes,
            }),
    {
        let len: usize = p.len();
        let n: u32 = read_u32(p, at);
        let mut q: usize = at + 4;
        let mut i: u32 = 0;
        let ghost goal = with_edges(self@.edges, p@, at + 4, n as int, coding);
        while i < n && len - q >= 8
            invariant
                i <= n,
                q <= p@.len(),
                len == p@.len(),
                goal == with_edges(self@.edges, p@, q as int, n - i, coding),
                self@.nodes == old(self)@.nodes,
            decreases n - i,
        {
            let index: u32 = read_u32(p, q);
            let count: usize = fit(p, q + 8, point_size(coding), read_u32(p, q + 4));
            let points: Vec<SmPoint> = read_sm_points(p, q + 8, coding, count);
            let ghost before = self.edges@;
            self.edges.insert(index, points);
            assert(contents(self.edges@) =~= contents(before).insert(index, points@));
            q = q + 8 + point_size(coding) * count;
            i += 1;
        }
    }

    /// Adds the nodes of a table whose entry count is at `at`.
    pub fn add_nodes(&mut self, p: &[u8], at: usize, coding: Coding)
        requires
            at + 4 <= p@.len(),
        ensures
            final(self)@ == (TablesView {
                edges: old(self)@.edges,
                nodes: with_nodes(old(self)@.nodes, p@, at + 4, le32(p@, at as int) as int, coding),
            }),
    {
        let len: usize = p.len();
        let n: u32 = read_u32(p, at);
        let entry: usize = 4 + point_size(coding);
        let mut q: usize = at + 4;
        let mut i: u32 = 0;
        let ghost goal = with_nodes(self@.nodes, p@, at + 4, n as int, coding);
        while i < n && len - q >= entry
            invariant
                i <= n,
                q <= p@.len(),
                len == p@.len(),
                entry == 4 + stride(coding),
                goal == with_nodes(self@.nodes, p@, q as int, n - i, coding),
                self@.edges == old(self)@.edges,
            decreases n - i,
        {
            let index: u32 = read_u32(p, q);
            let point: SmPoint = read_sm_point(p, q + 4, coding);
            self.nodes.insert(index, point);
            q = q + entry;
            i += 1;
        }
    }
}

} // verus!
