//! The graph store: nodes and edges keyed by allocator-issued identifiers,
//! together with the spatial chunk index that registers every node at its
//! home chunk and every edge under the chunks its segment traverses.
//!
//! Identifiers are issued in strictly increasing order starting at 1, so a
//! node or edge with id `k` lives at position `k - 1` of its arena.

use crate::chunk::{
    chunk_key, clamp_world, edge_chunks, encode_chunk, get_area, in_chunk_bounds, spec_area,
    spec_chunk_of, spec_clamp_world, ChunkPos, WorldConfig, NODE_HALF_RADIUS, NODE_RADIUS,
};
use crate::ids::{EdgeId, IdAllocator, NodeId};
use crate::math::{
    comp_bounded, dist_sq, dist_sq_exec, seg_dist_sq, seg_dist_sq_den, seg_dist_sq_num, Sqr, Vec2I,
};
use crate::traffic::{LaneDefinition, MAX_LANES};
use std::collections::HashMap;
use vstd::prelude::*;
use vstd::seq_lib::*;

verus! {

broadcast use vstd::std_specs::hash::group_hash_axioms;

/// A node: a position in the world plus the edges incident to it, in
/// creation order.
pub struct Node {
    id: NodeId,
    pos: Vec2I,
    edges: Vec<EdgeId>,
}

impl Node {
    pub closed spec fn spec_id(self) -> NodeId {
        self.id
    }

    pub closed spec fn spec_pos(self) -> Vec2I {
        self.pos
    }

    pub closed spec fn spec_edges(self) -> Seq<EdgeId> {
        self.edges@
    }

    pub fn get_pos(&self) -> (r: Vec2I)
        ensures
            r == self.spec_pos(),
    {
        self.pos
    }

    pub fn get_id(&self) -> (r: NodeId)
        ensures
            r == self.spec_id(),
    {
        self.id
    }

    /// The interaction radius of a node, in world units.
    pub fn radius() -> (r: i64)
        ensures
            r == NODE_RADIUS,
    {
        NODE_RADIUS
    }

    /// The edges incident to this node, in creation order.
    pub fn get_edges(&self) -> (r: &Vec<EdgeId>)
        ensures
            r@ == self.spec_edges(),
    {
        &self.edges
    }

    /// Fill `vec` with this node's neighbours: for each incident edge, the
    /// endpoint on the other side together with the edge's id, in
    /// incident-list order.
    pub fn get_neighbours(&self, node_manager: &NodeManager, vec: &mut Vec<(NodeId, EdgeId)>)
        requires
            node_manager.wf(),
            node_manager.valid_node_id(self.spec_id()),
            node_manager.node_at(self.spec_id()) == *self,
        ensures
            final(vec)@.len() == self.spec_edges().len(),
            forall|j: int|
                0 <= j < self.spec_edges().len() ==> final(vec)@[j] == (
                    node_manager.edge_at(#[trigger] self.spec_edges()[j]).spec_other_node(
                        self.spec_id(),
                    ),
                    self.spec_edges()[j],
                ),
    {
        vec.clear();
        proof {
            assert(node_manager.node_entry_wf(self.spec_id().0 - 1));
        }
        let mut j: usize = 0;
        while j < self.edges.len()
            invariant
                node_manager.wf(),
                node_manager.valid_node_id(self.spec_id()),
                node_manager.node_at(self.spec_id()) == *self,
                j <= self.spec_edges().len(),
                vec@.len() == j,
                forall|t: int|
                    0 <= t < j ==> vec@[t] == (
                        node_manager.edge_at(#[trigger] self.spec_edges()[t]).spec_other_node(
                            self.spec_id(),
                        ),
                        self.spec_edges()[t],
                    ),
            decreases self.spec_edges().len() - j,
        {
            let eid = self.edges[j];
            proof {
                assert(node_manager.node_entry_wf(self.spec_id().0 - 1));
                assert(node_manager.valid_edge_id(eid));
                assert(node_manager.edge_at(eid).has_endpoint(self.spec_id()));
            }
            let edge = node_manager.get_edge(eid).unwrap();
            let other = edge.get_other_node(self.id);
            vec.push((other, eid));
            j = j + 1;
        }
    }

    /// The first incident edge, in incident-list order, whose other
    /// endpoint is `other_node`, if this node has one.
    pub fn find_edge(&self, other_node: NodeId, node_manager: &NodeManager) -> (r: Option<EdgeId>)
        requires
            node_manager.wf(),
            node_manager.valid_node_id(self.spec_id()),
            node_manager.node_at(self.spec_id()) == *self,
        ensures
            match r {
                Some(e) => self.spec_edges().contains(e) && node_manager.valid_edge_id(e)
                    && node_manager.edge_at(e).spec_other_node(self.spec_id()) == other_node && (
                exists|k: int|
                    {
                        &&& 0 <= k < self.spec_edges().len()
                        &&& self.spec_edges()[k] == e
                        &&& forall|u: int|
                            0 <= u < k ==> node_manager.edge_at(
                                #[trigger] self.spec_edges()[u],
                            ).spec_other_node(self.spec_id()) != other_node
                    }),
                None => forall|j: int|
                    0 <= j < self.spec_edges().len() ==> node_manager.edge_at(
                        #[trigger] self.spec_edges()[j],
                    ).spec_other_node(self.spec_id()) != other_node,
            },
    {
        let mut j: usize = 0;
        while j < self.edges.len()
            invariant
                node_manager.wf(),
                node_manager.valid_node_id(self.spec_id()),
                node_manager.node_at(self.spec_id()) == *self,
                j <= self.spec_edges().len(),
                forall|t: int|
                    0 <= t < j ==> node_manager.edge_at(
                        #[trigger] self.spec_edges()[t],
                    ).spec_other_node(self.spec_id()) != other_node,
            decreases self.spec_edges().len() - j,
        {
            let eid = self.edges[j];
            proof {
                assert(node_manager.node_entry_wf(self.spec_id().0 - 1));
                assert(node_manager.valid_edge_id(eid));
                assert(node_manager.edge_at(eid).has_endpoint(self.spec_id()));
            }
            let edge = node_manager.get_edge(eid).unwrap();
            if edge.get_other_node(self.id) == other_node {
                proof {
                    assert(self.spec_edges()[j as int] == eid);
                    assert(0 <= j < self.spec_edges().len() && self.spec_edges()[j as int] == eid
                        && forall|u: int|
                        0 <= u < j ==> node_manager.edge_at(
                            #[trigger] self.spec_edges()[u],
                        ).spec_other_node(self.spec_id()) != other_node);
                }
                return Some(eid);
            }
            j = j + 1;
        }
        None
    }
}

/// An edge: an unordered pair of endpoint nodes, a traversal speed, and a
/// lane layout; immutable once created.
pub struct Edge {
    id: EdgeId,
    nodes: (NodeId, NodeId),
    speed: u64,
    lane_def: LaneDefinition,
}

impl Edge {
    pub closed spec fn spec_id(self) -> EdgeId {
        self.id
    }

    pub closed spec fn spec_nodes(self) -> (NodeId, NodeId) {
        self.nodes
    }

    pub closed spec fn spec_speed(self) -> u64 {
        self.speed
    }

    pub closed spec fn spec_lanes(self) -> LaneDefinition {
        self.lane_def
    }

    pub open spec fn has_endpoint(self, n: NodeId) -> bool {
        self.spec_nodes().0 == n || self.spec_nodes().1 == n
    }

    pub open spec fn spec_other_node(self, n: NodeId) -> NodeId {
        if self.spec_nodes().0 == n {
            self.spec_nodes().1
        } else {
            self.spec_nodes().0
        }
    }

    pub fn get_id(&self) -> (r: EdgeId)
        ensures
            r == self.spec_id(),
    {
        self.id
    }

    pub fn get_nodes(&self) -> (r: (NodeId, NodeId))
        ensures
            r == self.spec_nodes(),
    {
        self.nodes
    }

    pub fn get_speed(&self) -> (r: u64)
        ensures
            r == self.spec_speed(),
    {
        self.speed
    }

    /// The endpoint of this edge other than `node`; the caller must pass
    /// one of the two endpoints.
    pub fn get_other_node(&self, node: NodeId) -> (r: NodeId)
        requires
            self.has_endpoint(node),
        ensures
            r == self.spec_other_node(node),
            self.has_endpoint(r),
    {
        if self.nodes.0 == node {
            self.nodes.1
        } else {
            self.nodes.0
        }
    }

    /// How many lanes the edge carries.
    pub fn get_size(&self) -> (r: u8)
        requires
            self.spec_lanes().wf(),
        ensures
            r == self.spec_lanes().lanes_seq().len(),
    {
        self.lane_def.get_size()
    }

    /// The squared distance from `pos` to this edge's segment, as the
    /// exact nonnegative rational `num / den` with `den >= 1`: the
    /// projection of `pos` onto the segment's line, clamped to the
    /// segment, measured back to `pos`.
    pub fn distance_to_sqr(&self, node_manager: &NodeManager, pos: Vec2I) -> (r: (u128, u128))
        requires
            node_manager.wf(),
            node_manager.valid_edge_id(self.spec_id()),
            node_manager.edge_at(self.spec_id()) == *self,
            comp_bounded(pos, node_manager.spec_cfg().world_limit()),
        ensures
            ({
                let a = node_manager.node_at(self.spec_nodes().0).spec_pos();
                let b = node_manager.node_at(self.spec_nodes().1).spec_pos();
                r.0 == seg_dist_sq_num(a, b, pos) && r.1 == seg_dist_sq_den(a, b, pos) && 1 <= r.1
                    <= 0x20_0000_0000_0000
            }),
    {
        proof {
            assert(node_manager.edge_entry_wf(self.spec_id().0 - 1));
            assert(node_manager.node_entry_wf(self.spec_nodes().0.0 - 1));
            assert(node_manager.node_entry_wf(self.spec_nodes().1.0 - 1));
            assert(node_manager.spec_cfg().world_limit() <= 0x10_0000);
        }
        let a = node_manager.get_node_pos(self.nodes.0).unwrap();
        let b = node_manager.get_node_pos(self.nodes.1).unwrap();
        seg_dist_sq(a, b, pos)
    }
}

/// Incidence invariant: in a well-formed store, every edge's id appears in
/// the incident-edge lists of exactly its two distinct endpoints, exactly
/// once each.
pub proof fn lemma_edge_incidence(m: NodeManager, e: EdgeId)
    requires
        m.wf(),
        m.valid_edge_id(e),
    ensures
        m.edge_at(e).spec_nodes().0 != m.edge_at(e).spec_nodes().1,
        m.node_at(m.edge_at(e).spec_nodes().0).spec_edges().contains(e),
        m.node_at(m.edge_at(e).spec_nodes().1).spec_edges().contains(e),
        m.node_at(m.edge_at(e).spec_nodes().0).spec_edges().no_duplicates(),
        m.node_at(m.edge_at(e).spec_nodes().1).spec_edges().no_duplicates(),
        forall|n: NodeId|
            m.valid_node_id(n) && !m.edge_at(e).has_endpoint(n) ==> !m.node_at(
                n,
            ).spec_edges().contains(e),
{
    assert(m.edge_entry_wf(e.0 - 1));
    let ed = m.edge_at(e);
    assert(ed.spec_id() == e) by {
        assert(ed.spec_id().0 == e.0);
    }
    assert(m.node_entry_wf(ed.spec_nodes().0.0 - 1));
    assert(m.node_entry_wf(ed.spec_nodes().1.0 - 1));
    assert forall|n: NodeId|
        m.valid_node_id(n) && !ed.has_endpoint(n) implies !m.node_at(n).spec_edges().contains(
        e,
    ) by {
        assert(m.node_entry_wf(n.0 - 1));
        let nd = m.node_at(n);
        assert(nd.spec_id() == n) by {
            assert(nd.spec_id().0 == n.0);
        }
        if nd.spec_edges().contains(e) {
            let j = choose|j: int| 0 <= j < nd.spec_edges().len() && nd.spec_edges()[j] == e;
            assert(m.edge_at(nd.spec_edges()[j]).has_endpoint(n));
        }
    }
}

/// The graph store: arenas of nodes and edges, one identifier allocator
/// per kind, and the spatial chunk index over both.
pub struct NodeManager {
    nodes: Vec<Node>,
    edges: Vec<Edge>,
    node_ids: IdAllocator,
    edge_ids: IdAllocator,
    node_lookup: HashMap<u64, Vec<NodeId>>,
    edge_lookup: HashMap<u64, Vec<EdgeId>>,
    cfg: WorldConfig,
    tested: Vec<NodeId>,
}

impl NodeManager {
    pub closed spec fn spec_cfg(self) -> WorldConfig {
        self.cfg
    }

    pub closed spec fn nodes_seq(self) -> Seq<Node> {
        self.nodes@
    }

    pub closed spec fn edges_seq(self) -> Seq<Edge> {
        self.edges@
    }

    pub closed spec fn node_lookup_map(self) -> Map<u64, Vec<NodeId>> {
        self.node_lookup@
    }

    pub closed spec fn edge_lookup_map(self) -> Map<u64, Vec<EdgeId>> {
        self.edge_lookup@
    }

    pub closed spec fn tested_seq(self) -> Seq<NodeId> {
        self.tested@
    }

    pub closed spec fn nodes_issued(self) -> u64 {
        self.node_ids.spec_issued()
    }

    pub closed spec fn edges_issued(self) -> u64 {
        self.edge_ids.spec_issued()
    }

    /// Whether `id` names a node of this store.
    pub open spec fn valid_node_id(self, id: NodeId) -> bool {
        1 <= id.0 <= self.nodes_seq().len()
    }

    /// Whether `id` names an edge of this store.
    pub open spec fn valid_edge_id(self, id: EdgeId) -> bool {
        1 <= id.0 <= self.edges_seq().len()
    }

    /// The node a valid id names.
    pub open spec fn node_at(self, id: NodeId) -> Node {
        self.nodes_seq()[id.0 - 1]
    }

    /// The edge a valid id names.
    pub open spec fn edge_at(self, id: EdgeId) -> Edge {
        self.edges_seq()[id.0 - 1]
    }

    /// The spatial-index key of a position's home chunk.
    pub open spec fn chunk_key_of(self, pos: Vec2I) -> u64 {
        chunk_key(spec_chunk_of(pos, self.spec_cfg()))
    }

    /// Well-formedness of one node entry: its id matches its arena slot,
    /// its position lies in the world, and its incident-edge list names
    /// distinct existing edges that really end at it.
    pub open spec fn node_entry_wf(self, i: int) -> bool {
        let n = self.nodes_seq()[i];
        &&& n.spec_id().0 == i + 1
        &&& comp_bounded(n.spec_pos(), self.spec_cfg().world_limit())
        &&& n.spec_edges().no_duplicates()
        &&& forall|j: int|
            0 <= j < n.spec_edges().len() ==> self.valid_edge_id(#[trigger] n.spec_edges()[j])
                && self.edge_at(n.spec_edges()[j]).has_endpoint(n.spec_id())
    }

    /// Well-formedness of one edge entry: its id matches its arena slot,
    /// its endpoints are distinct existing nodes and both list it as
    /// incident, its speed is positive and its lane layout well-formed.
    pub open spec fn edge_entry_wf(self, k: int) -> bool {
        let e = self.edges_seq()[k];
        &&& e.spec_id().0 == k + 1
        &&& self.valid_node_id(e.spec_nodes().0)
        &&& self.valid_node_id(e.spec_nodes().1)
        &&& e.spec_nodes().0 != e.spec_nodes().1
        &&& e.spec_speed() >= 1
        &&& e.spec_lanes().wf()
        &&& self.node_at(e.spec_nodes().0).spec_edges().contains(e.spec_id())
        &&& self.node_at(e.spec_nodes().1).spec_edges().contains(e.spec_id())
    }

    /// The node index is complete (every node is registered under its home
    /// chunk) and sound (buckets hold only existing node ids).
    pub open spec fn node_lookup_wf(self) -> bool {
        &&& forall|i: int|
            0 <= i < self.nodes_seq().len() ==> {
                let key = self.chunk_key_of((#[trigger] self.nodes_seq()[i]).spec_pos());
                &&& self.node_lookup_map().contains_key(key)
                &&& self.node_lookup_map()[key]@.contains(self.nodes_seq()[i].spec_id())
            }
        &&& forall|key: u64, j: int|
            self.node_lookup_map().contains_key(key) && 0 <= j
                < self.node_lookup_map()[key]@.len() ==> self.valid_node_id(
                #[trigger] self.node_lookup_map()[key]@[j],
            )
    }

    /// The edge index holds only existing edge ids.
    pub open spec fn edge_lookup_wf(self) -> bool {
        forall|key: u64, j: int|
            self.edge_lookup_map().contains_key(key) && 0 <= j
                < self.edge_lookup_map()[key]@.len() ==> self.valid_edge_id(
                #[trigger] self.edge_lookup_map()[key]@[j],
            )
    }

    /// The store's invariant.
    pub open spec fn wf(self) -> bool {
        &&& self.spec_cfg().wf()
        &&& self.nodes_issued() == self.nodes_seq().len()
        &&& self.edges_issued() == self.edges_seq().len()
        &&& forall|i: int| 0 <= i < self.nodes_seq().len() ==> self.node_entry_wf(i)
        &&& forall|k: int| 0 <= k < self.edges_seq().len() ==> self.edge_entry_wf(k)
        &&& self.node_lookup_wf()
        &&& self.edge_lookup_wf()
        &&& forall|j: int|
            0 <= j < self.tested_seq().len() ==> self.valid_node_id(#[trigger] self.tested_seq()[j])
    }

    /// An empty store over the given world configuration.
    pub fn with_config(cfg: WorldConfig) -> (r: NodeManager)
        requires
            cfg.wf(),
        ensures
            r.wf(),
            r.spec_cfg() == cfg,
            r.nodes_seq().len() == 0,
            r.edges_seq().len() == 0,
            r.tested_seq().len() == 0,
    {
        NodeManager {
            nodes: Vec::new(),
            edges: Vec::new(),
            node_ids: IdAllocator::new(),
            edge_ids: IdAllocator::new(),
            node_lookup: HashMap::new(),
            edge_lookup: HashMap::new(),
            cfg,
            tested: Vec::new(),
        }
    }

    pub fn get_config(&self) -> (r: WorldConfig)
        ensures
            r == self.spec_cfg(),
    {
        self.cfg
    }

    /// Position of the demonstration grid's node at arena index `i`:
    /// nodes are created column by column, 100 units apart, centred on
    /// the origin.
    pub open spec fn grid_node_pos(i: int) -> Vec2I {
        Vec2I { x: ((i / 11 - 5) * 100) as i64, y: ((i % 11 - 5) * 100) as i64 }
    }

    /// Endpoints of the demonstration grid's edge at arena index `k`:
    /// the first 110 edges run vertically column by column, the rest
    /// horizontally row by row.
    pub open spec fn grid_edge_nodes(k: int) -> (NodeId, NodeId) {
        if k < 110 {
            let x = k / 10;
            let y = k % 10;
            (NodeId((x * 11 + y + 1) as u64), NodeId((x * 11 + y + 2) as u64))
        } else {
            let y = (k - 110) / 10;
            let x = (k - 110) % 10;
            (NodeId((x * 11 + y + 1) as u64), NodeId(((x + 1) * 11 + y + 1) as u64))
        }
    }

    /// Speed of the demonstration grid's edge at arena index `k`: the
    /// centre vertical column is twice as fast as everything else.
    pub open spec fn grid_edge_speed(k: int) -> u64 {
        if k < 110 && k / 10 == 5 {
            2
        } else {
            1
        }
    }

    /// Lane count of the demonstration grid's edge at arena index `k`:
    /// the centre vertical column is wider than everything else.
    pub open spec fn grid_edge_width(k: int) -> int {
        if k < 110 && k / 10 == 5 {
            16
        } else {
            12
        }
    }

    /// A store over the standard world, pre-populated with an 11 by 11
    /// grid of nodes 100 units apart, connected rectilinearly; the middle
    /// vertical road is faster and wider than the rest.
    pub fn new() -> (r: NodeManager)
        ensures
            r.wf(),
            r.spec_cfg().chunk_size == 100,
            r.spec_cfg().chunk_radius == 500,
            r.nodes_seq().len() == 121,
            r.edges_seq().len() == 220,
            forall|i: int|
                0 <= i < 121 ==> r.node_at(NodeId((i + 1) as u64)).spec_pos()
                    == NodeManager::grid_node_pos(i),
            forall|k: int|
                0 <= k < 220 ==> {
                    let e = #[trigger] r.edge_at(EdgeId((k + 1) as u64));
                    &&& e.spec_nodes() == NodeManager::grid_edge_nodes(k)
                    &&& e.spec_speed() == NodeManager::grid_edge_speed(k)
                    &&& e.spec_lanes().lanes_seq().len() == NodeManager::grid_edge_width(k)
                },
            r.tested_seq().len() == 0,
    {
        let cfg = WorldConfig::standard();
        let mut m = NodeManager::with_config(cfg);
        let mut x: usize = 0;
        while x < 11
            invariant
                m.wf(),
                m.spec_cfg() == cfg,
                cfg.chunk_size == 100 && cfg.chunk_radius == 500,
                x <= 11,
                m.nodes_seq().len() == x * 11,
                m.edges_seq().len() == 0,
                m.tested_seq().len() == 0,
                forall|i: int|
                    0 <= i < x * 11 ==> (#[trigger] m.node_at(NodeId((i + 1) as u64))).spec_pos()
                        == NodeManager::grid_node_pos(i),
            decreases 11 - x,
        {
            let mut y: usize = 0;
            while y < 11
                invariant
                    m.wf(),
                    m.spec_cfg() == cfg,
                    cfg.chunk_size == 100 && cfg.chunk_radius == 500,
                    x < 11,
                    y <= 11,
                    m.nodes_seq().len() == x * 11 + y,
                    m.edges_seq().len() == 0,
                    m.tested_seq().len() == 0,
                    forall|i: int|
                        0 <= i < x * 11 + y ==> (#[trigger] m.node_at(
                            NodeId((i + 1) as u64),
                        )).spec_pos() == NodeManager::grid_node_pos(i),
                decreases 11 - y,
            {
                let px: i64 = (x as i64 - 5) * 100;
                let py: i64 = (y as i64 - 5) * 100;
                let ghost pre = m;
                m.add_node(Vec2I { x: px, y: py });
                proof {
                    let i0 = (x * 11 + y) as int;
                    vstd::arithmetic::div_mod::lemma_fundamental_div_mod(i0, 11);
                    vstd::arithmetic::div_mod::lemma_mod_bound(i0, 11);
                    assert(i0 / 11 == x && i0 % 11 == y) by (nonlinear_arith)
                        requires
                            i0 == 11 * (x as int) + y,
                            0 <= y < 11,
                            i0 == 11 * (i0 / 11) + i0 % 11,
                            0 <= i0 % 11 < 11,
                    ;
                    assert forall|i: int| 0 <= i < x * 11 + y + 1 implies (#[trigger] m.node_at(
                        NodeId((i + 1) as u64),
                    )).spec_pos() == NodeManager::grid_node_pos(i) by {
                        if i < i0 {
                            assert(m.nodes_seq()[i] == pre.nodes_seq()[i]);
                            assert(pre.node_at(NodeId((i + 1) as u64)).spec_pos()
                                == NodeManager::grid_node_pos(i));
                        } else {
                            assert(m.node_at(NodeId((i0 + 1) as u64)).spec_pos() == (Vec2I {
                                x: px,
                                y: py,
                            }));
                        }
                    }
                }
                y = y + 1;
            }
            x = x + 1;
        }
        // Vertical runs: the centre column is a fast, wide road.
        let mut x: usize = 0;
        while x < 11
            invariant
                m.wf(),
                m.spec_cfg() == cfg,
                x <= 11,
                m.nodes_seq().len() == 121,
                m.edges_seq().len() == x * 10,
                m.tested_seq().len() == 0,
                forall|i: int|
                    0 <= i < 121 ==> (#[trigger] m.node_at(NodeId((i + 1) as u64))).spec_pos()
                        == NodeManager::grid_node_pos(i),
                forall|k: int|
                    0 <= k < x * 10 ==> {
                        let e = #[trigger] m.edge_at(EdgeId((k + 1) as u64));
                        &&& e.spec_nodes() == NodeManager::grid_edge_nodes(k)
                        &&& e.spec_speed() == NodeManager::grid_edge_speed(k)
                        &&& e.spec_lanes().lanes_seq().len() == NodeManager::grid_edge_width(k)
                    },
            decreases 11 - x,
        {
            let mut y: usize = 0;
            while y < 10
                invariant
                    m.wf(),
                    m.spec_cfg() == cfg,
                    x < 11,
                    y <= 10,
                    m.nodes_seq().len() == 121,
                    m.edges_seq().len() == x * 10 + y,
                    m.tested_seq().len() == 0,
                    forall|i: int|
                        0 <= i < 121 ==> (#[trigger] m.node_at(
                            NodeId((i + 1) as u64),
                        )).spec_pos() == NodeManager::grid_node_pos(i),
                    forall|k: int|
                        0 <= k < x * 10 + y ==> {
                            let e = #[trigger] m.edge_at(EdgeId((k + 1) as u64));
                            &&& e.spec_nodes() == NodeManager::grid_edge_nodes(k)
                            &&& e.spec_speed() == NodeManager::grid_edge_speed(k)
                            &&& e.spec_lanes().lanes_seq().len() == NodeManager::grid_edge_width(
                                k,
                            )
                        },
                decreases 10 - y,
            {
                let a = NodeId((x * 11 + y + 1) as u64);
                let b = NodeId((x * 11 + y + 2) as u64);
                let ghost pre = m;
                if x == 5 {
                    m.make_edge(a, b, 2, 16);
                } else {
                    m.make_edge(a, b, 1, 12);
                }
                proof {
                    let k0 = (x * 10 + y) as int;
                    vstd::arithmetic::div_mod::lemma_fundamental_div_mod(k0, 10);
                    vstd::arithmetic::div_mod::lemma_mod_bound(k0, 10);
                    assert(k0 / 10 == x && k0 % 10 == y) by (nonlinear_arith)
                        requires
                            k0 == 10 * (x as int) + y,
                            0 <= y < 10,
                            k0 == 10 * (k0 / 10) + k0 % 10,
                            0 <= k0 % 10 < 10,
                    ;
                    assert forall|i: int| 0 <= i < 121 implies (#[trigger] m.node_at(
                        NodeId((i + 1) as u64),
                    )).spec_pos() == NodeManager::grid_node_pos(i) by {
                        if i + 1 != a.0 && i + 1 != b.0 {
                            assert(m.nodes_seq()[i] == pre.nodes_seq()[i]);
                        }
                        assert(pre.node_at(NodeId((i + 1) as u64)).spec_pos()
                            == NodeManager::grid_node_pos(i));
                    }
                    assert forall|k: int| 0 <= k < x * 10 + y + 1 implies {
                        let e = #[trigger] m.edge_at(EdgeId((k + 1) as u64));
                        &&& e.spec_nodes() == NodeManager::grid_edge_nodes(k)
                        &&& e.spec_speed() == NodeManager::grid_edge_speed(k)
                        &&& e.spec_lanes().lanes_seq().len() == NodeManager::grid_edge_width(k)
                    } by {
                        if k < k0 {
                            assert(m.edges_seq()[k] == pre.edges_seq()[k]);
                            let ep = pre.edge_at(EdgeId((k + 1) as u64));
                            assert(ep.spec_nodes() == NodeManager::grid_edge_nodes(k)
                                && ep.spec_speed() == NodeManager::grid_edge_speed(k)
                                && ep.spec_lanes().lanes_seq().len()
                                == NodeManager::grid_edge_width(k));
                        } else {
                            assert(k == k0);
                            let e = m.edge_at(EdgeId((k0 + 1) as u64));
                            assert(e.spec_nodes() == (a, b));
                            assert(NodeManager::grid_edge_nodes(k0) == (a, b));
                        }
                    }
                }
                y = y + 1;
            }
            x = x + 1;
        }
        // Horizontal runs.
        let mut y: usize = 0;
        while y < 11
            invariant
                m.wf(),
                m.spec_cfg() == cfg,
                y <= 11,
                m.nodes_seq().len() == 121,
                m.edges_seq().len() == 110 + y * 10,
                m.tested_seq().len() == 0,
                forall|i: int|
                    0 <= i < 121 ==> (#[trigger] m.node_at(NodeId((i + 1) as u64))).spec_pos()
                        == NodeManager::grid_node_pos(i),
                forall|k: int|
                    0 <= k < 110 + y * 10 ==> {
                        let e = #[trigger] m.edge_at(EdgeId((k + 1) as u64));
                        &&& e.spec_nodes() == NodeManager::grid_edge_nodes(k)
                        &&& e.spec_speed() == NodeManager::grid_edge_speed(k)
                        &&& e.spec_lanes().lanes_seq().len() == NodeManager::grid_edge_width(k)
                    },
            decreases 11 - y,
        {
            let mut x: usize = 0;
            while x < 10
                invariant
                    m.wf(),
                    m.spec_cfg() == cfg,
                    y < 11,
                    x <= 10,
                    m.nodes_seq().len() == 121,
                    m.edges_seq().len() == 110 + y * 10 + x,
                    m.tested_seq().len() == 0,
                    forall|i: int|
                        0 <= i < 121 ==> (#[trigger] m.node_at(
                            NodeId((i + 1) as u64),
                        )).spec_pos() == NodeManager::grid_node_pos(i),
                    forall|k: int|
                        0 <= k < 110 + y * 10 + x ==> {
                            let e = #[trigger] m.edge_at(EdgeId((k + 1) as u64));
                            &&& e.spec_nodes() == NodeManager::grid_edge_nodes(k)
                            &&& e.spec_speed() == NodeManager::grid_edge_speed(k)
                            &&& e.spec_lanes().lanes_seq().len() == NodeManager::grid_edge_width(
                                k,
                            )
                        },
                decreases 10 - x,
            {
                let a = NodeId((x * 11 + y + 1) as u64);
                let b = NodeId(((x + 1) * 11 + y + 1) as u64);
                let ghost pre = m;
                m.make_edge(a, b, 1, 12);
                proof {
                    let k0 = (110 + y * 10 + x) as int;
                    vstd::arithmetic::div_mod::lemma_fundamental_div_mod(k0 - 110, 10);
                    vstd::arithmetic::div_mod::lemma_mod_bound(k0 - 110, 10);
                    assert((k0 - 110) / 10 == y && (k0 - 110) % 10 == x) by (nonlinear_arith)
                        requires
                            k0 - 110 == 10 * (y as int) + x,
                            0 <= x < 10,
                            k0 - 110 == 10 * ((k0 - 110) / 10) + (k0 - 110) % 10,
                            0 <= (k0 - 110) % 10 < 10,
                    ;
                    assert forall|i: int| 0 <= i < 121 implies (#[trigger] m.node_at(
                        NodeId((i + 1) as u64),
                    )).spec_pos() == NodeManager::grid_node_pos(i) by {
                        if i + 1 != a.0 && i + 1 != b.0 {
                            assert(m.nodes_seq()[i] == pre.nodes_seq()[i]);
                        }
                        assert(pre.node_at(NodeId((i + 1) as u64)).spec_pos()
                            == NodeManager::grid_node_pos(i));
                    }
                    assert forall|k: int| 0 <= k < 110 + y * 10 + x + 1 implies {
                        let e = #[trigger] m.edge_at(EdgeId((k + 1) as u64));
                        &&& e.spec_nodes() == NodeManager::grid_edge_nodes(k)
                        &&& e.spec_speed() == NodeManager::grid_edge_speed(k)
                        &&& e.spec_lanes().lanes_seq().len() == NodeManager::grid_edge_width(k)
                    } by {
                        if k < k0 {
                            assert(m.edges_seq()[k] == pre.edges_seq()[k]);
                            let ep = pre.edge_at(EdgeId((k + 1) as u64));
                            assert(ep.spec_nodes() == NodeManager::grid_edge_nodes(k)
                                && ep.spec_speed() == NodeManager::grid_edge_speed(k)
                                && ep.spec_lanes().lanes_seq().len()
                                == NodeManager::grid_edge_width(k));
                        } else {
                            assert(k == k0);
                            let e = m.edge_at(EdgeId((k0 + 1) as u64));
                            assert(e.spec_nodes() == (a, b));
                            assert(NodeManager::grid_edge_nodes(k0) == (a, b));
                        }
                    }
                }
                x = x + 1;
            }
            y = y + 1;
        }
        m
    }

    /// The node ids examined by the most recent point collision query.
    pub fn tested_nodes(&self) -> (r: &Vec<NodeId>)
        ensures
            r@ == self.tested_seq(),
    {
        &self.tested
    }

    /// Look a node up by id; unknown and stale ids yield `None`, never a
    /// failure.
    pub fn get_node(&self, id: NodeId) -> (r: Option<&Node>)
        ensures
            match r {
                Some(n) => self.valid_node_id(id) && *n == self.node_at(id),
                None => !self.valid_node_id(id),
            },
    {
        if 1 <= id.0 && id.0 <= self.nodes.len() as u64 {
            Some(&self.nodes[(id.0 - 1) as usize])
        } else {
            None
        }
    }

    /// A node's position, if the id names a node.
    pub fn get_node_pos(&self, id: NodeId) -> (r: Option<Vec2I>)
        ensures
            match r {
                Some(p) => self.valid_node_id(id) && p == self.node_at(id).spec_pos(),
                None => !self.valid_node_id(id),
            },
    {
        match self.get_node(id) {
            Some(n) => Some(n.get_pos()),
            None => None,
        }
    }

    /// Look an edge up by id; unknown ids yield `None`, never a failure.
    pub fn get_edge(&self, id: EdgeId) -> (r: Option<&Edge>)
        ensures
            match r {
                Some(e) => self.valid_edge_id(id) && *e == self.edge_at(id),
                None => !self.valid_edge_id(id),
            },
    {
        if 1 <= id.0 && id.0 <= self.edges.len() as u64 {
            Some(&self.edges[(id.0 - 1) as usize])
        } else {
            None
        }
    }

    /// All nodes, in id order.
    pub fn get_nodes(&self) -> (r: &Vec<Node>)
        ensures
            r@ == self.nodes_seq(),
    {
        &self.nodes
    }

    /// All edges, in id order.
    pub fn get_edges(&self) -> (r: &Vec<Edge>)
        ensures
            r@ == self.edges_seq(),
    {
        &self.edges
    }

    /// Append `id` to the bucket of `key` in the node index.
    fn node_lookup_push(&mut self, key: u64, id: NodeId)
        ensures
            final(self).node_lookup_map() == old(self).node_lookup_map().insert(
                key,
                final(self).node_lookup_map()[key],
            ),
            final(self).node_lookup_map().contains_key(key),
            final(self).node_lookup_map()[key]@ == if old(self).node_lookup_map().contains_key(key) {
                old(self).node_lookup_map()[key]@.push(id)
            } else {
                seq![id]
            },
            final(self).nodes_seq() == old(self).nodes_seq(),
            final(self).edges_seq() == old(self).edges_seq(),
            final(self).edge_lookup_map() == old(self).edge_lookup_map(),
            final(self).spec_cfg() == old(self).spec_cfg(),
            final(self).tested_seq() == old(self).tested_seq(),
            final(self).nodes_issued() == old(self).nodes_issued(),
            final(self).edges_issued() == old(self).edges_issued(),
    {
        let mut bucket: Vec<NodeId> = match self.node_lookup.remove(&key) {
            Some(v) => v,
            None => Vec::new(),
        };
        bucket.push(id);
        self.node_lookup.insert(key, bucket);
        proof {
            assert(final(self).node_lookup_map() =~= old(self).node_lookup_map().insert(
                key,
                final(self).node_lookup_map()[key],
            ));
        }
    }

    /// Append `id` to the bucket of `key` in the edge index.
    fn edge_lookup_push(&mut self, key: u64, id: EdgeId)
        ensures
            final(self).edge_lookup_map() == old(self).edge_lookup_map().insert(
                key,
                final(self).edge_lookup_map()[key],
            ),
            final(self).edge_lookup_map().contains_key(key),
            final(self).edge_lookup_map()[key]@ == if old(self).edge_lookup_map().contains_key(key) {
                old(self).edge_lookup_map()[key]@.push(id)
            } else {
                seq![id]
            },
            final(self).nodes_seq() == old(self).nodes_seq(),
            final(self).edges_seq() == old(self).edges_seq(),
            final(self).node_lookup_map() == old(self).node_lookup_map(),
            final(self).spec_cfg() == old(self).spec_cfg(),
            final(self).tested_seq() == old(self).tested_seq(),
            final(self).nodes_issued() == old(self).nodes_issued(),
            final(self).edges_issued() == old(self).edges_issued(),
    {
        let mut bucket: Vec<EdgeId> = match self.edge_lookup.remove(&key) {
            Some(v) => v,
            None => Vec::new(),
        };
        bucket.push(id);
        self.edge_lookup.insert(key, bucket);
        proof {
            assert(final(self).edge_lookup_map() =~= old(self).edge_lookup_map().insert(
                key,
                final(self).edge_lookup_map()[key],
            ));
        }
    }

    /// Place a node: allocate its id, store it with an empty incident-edge
    /// list, and register it at its home chunk. Always succeeds; a
    /// position beyond the world bound saturates to it.
    pub fn add_node(&mut self, pos: Vec2I) -> (r: NodeId)
        requires
            old(self).wf(),
            old(self).nodes_seq().len() < 0xFFFF_FFFF_FFFF_FFFF,
        ensures
            final(self).wf(),
            final(self).spec_cfg() == old(self).spec_cfg(),
            r.0 == old(self).nodes_seq().len() + 1,
            final(self).valid_node_id(r),
            final(self).nodes_seq().len() == old(self).nodes_seq().len() + 1,
            final(self).node_at(r).spec_id() == r,
            final(self).node_at(r).spec_pos() == spec_clamp_world(pos, old(self).spec_cfg()),
            final(self).node_at(r).spec_edges().len() == 0,
            forall|i: int|
                0 <= i < old(self).nodes_seq().len() ==> final(self).nodes_seq()[i] == old(
                    self,
                ).nodes_seq()[i],
            final(self).edges_seq() == old(self).edges_seq(),
            final(self).tested_seq() == old(self).tested_seq(),
            final(self).edge_lookup_map() == old(self).edge_lookup_map(),
            ({
                let k = chunk_key(
                    spec_chunk_of(spec_clamp_world(pos, old(self).spec_cfg()), old(self).spec_cfg()),
                );
                &&& final(self).node_lookup_map() == old(self).node_lookup_map().insert(
                    k,
                    final(self).node_lookup_map()[k],
                )
                &&& final(self).node_lookup_map()[k]@ == (if old(
                    self,
                ).node_lookup_map().contains_key(k) {
                    old(self).node_lookup_map()[k]@.push(r)
                } else {
                    seq![r]
                })
            }),
    {
        let pos = clamp_world(pos, self.cfg);
        let raw = self.node_ids.next_id();
        let id = NodeId(raw);
        let node = Node { id, pos, edges: Vec::new() };
        let ghost gnode = node;
        self.nodes.push(node);
        let chunk = ChunkPos::from_world_pos(pos, self.cfg);
        proof {
            assert(-0x8000_0000 <= chunk.x < 0x8000_0000 && -0x8000_0000 <= chunk.y < 0x8000_0000)
                by {
                assert(self.cfg.chunk_radius <= 0x10_0000) by (nonlinear_arith)
                    requires
                        2 * NODE_RADIUS < self.cfg.chunk_size,
                        1 <= self.cfg.chunk_radius,
                        self.cfg.chunk_size * self.cfg.chunk_radius <= 0x10_0000,
                ;
            }
        }
        let key = encode_chunk(chunk);
        proof {
            crate::chunk::lemma_encode_range(chunk);
            assert(key == chunk_key(
                spec_chunk_of(spec_clamp_world(pos, old(self).spec_cfg()), old(self).spec_cfg()),
            )) by {
                assert(pos == spec_clamp_world(pos, old(self).spec_cfg()));
            }
        }
        self.node_lookup_push(key, id);
        proof {
            let new_self = *self;
            let old_self = *old(self);
            let n = old_self.nodes_seq().len() as int;
            assert(new_self.nodes_seq() == old_self.nodes_seq().push(gnode));
            assert(gnode.spec_id() == id && gnode.spec_pos() == pos && gnode.spec_edges().len()
                == 0);
            assert forall|i: int| 0 <= i < n + 1 implies new_self.node_entry_wf(i) by {
                if i < n {
                    assert(old_self.node_entry_wf(i));
                    assert(new_self.nodes_seq()[i] == old_self.nodes_seq()[i]);
                } else {
                    assert(new_self.nodes_seq()[i].spec_edges().len() == 0);
                }
            }
            assert forall|k: int| 0 <= k < new_self.edges_seq().len() implies new_self.edge_entry_wf(
                k,
            ) by {
                assert(old_self.edge_entry_wf(k));
                let e = old_self.edges_seq()[k];
                assert(new_self.node_at(e.spec_nodes().0) == old_self.node_at(e.spec_nodes().0));
                assert(new_self.node_at(e.spec_nodes().1) == old_self.node_at(e.spec_nodes().1));
            }
            assert(new_self.node_lookup_wf()) by {
                assert forall|i: int| 0 <= i < n + 1 implies {
                    let k2 = new_self.chunk_key_of((#[trigger] new_self.nodes_seq()[i]).spec_pos());
                    &&& new_self.node_lookup_map().contains_key(k2)
                    &&& new_self.node_lookup_map()[k2]@.contains(new_self.nodes_seq()[i].spec_id())
                } by {
                    let k2 = new_self.chunk_key_of(new_self.nodes_seq()[i].spec_pos());
                    if i < n {
                        assert(old_self.node_lookup_map().contains_key(k2)
                            && old_self.node_lookup_map()[k2]@.contains(
                            old_self.nodes_seq()[i].spec_id(),
                        ));
                        if k2 == key {
                            let old_bucket = old_self.node_lookup_map()[key]@;
                            let idx = choose|t: int|
                                0 <= t < old_bucket.len() && old_bucket[t]
                                    == old_self.nodes_seq()[i].spec_id();
                            assert(new_self.node_lookup_map()[key]@[idx] == old_bucket[idx]);
                        }
                    } else {
                        assert(k2 == key);
                        let bucket = new_self.node_lookup_map()[key]@;
                        assert(bucket[bucket.len() - 1] == id);
                    }
                }
                assert forall|key2: u64, j: int|
                    new_self.node_lookup_map().contains_key(key2) && 0 <= j
                        < new_self.node_lookup_map()[key2]@.len() implies new_self.valid_node_id(
                    #[trigger] new_self.node_lookup_map()[key2]@[j],
                ) by {
                    if key2 == key {
                        let bucket = new_self.node_lookup_map()[key]@;
                        if old_self.node_lookup_map().contains_key(key) {
                            if j < bucket.len() - 1 {
                                assert(bucket[j] == old_self.node_lookup_map()[key]@[j]);
                                assert(old_self.valid_node_id(bucket[j]));
                            } else {
                                assert(bucket[j] == id);
                            }
                        } else {
                            assert(bucket[j] == id);
                        }
                    } else {
                        assert(new_self.node_lookup_map()[key2] == old_self.node_lookup_map()[
                            key2
                        ]);
                        assert(old_self.valid_node_id(old_self.node_lookup_map()[key2]@[j]));
                    }
                }
            }
            assert(new_self.edge_lookup_wf()) by {
                assert forall|key2: u64, j: int|
                    new_self.edge_lookup_map().contains_key(key2) && 0 <= j
                        < new_self.edge_lookup_map()[key2]@.len() implies new_self.valid_edge_id(
                    #[trigger] new_self.edge_lookup_map()[key2]@[j],
                ) by {
                    assert(old_self.valid_edge_id(old_self.edge_lookup_map()[key2]@[j]));
                }
            }
            assert forall|j: int| 0 <= j < new_self.tested_seq().len() implies new_self
                .valid_node_id(#[trigger] new_self.tested_seq()[j]) by {
                assert(old_self.valid_node_id(old_self.tested_seq()[j]));
            }
        }
        id
    }

    /// Create an edge between two distinct existing nodes: allocate its
    /// id, store it, append it to both endpoints' incident-edge lists, and
    /// register the chunks its segment traverses in the edge index. All
    /// three effects are visible together once the call returns.
    pub fn make_edge(&mut self, node_a: NodeId, node_b: NodeId, speed: u64, size: u8) -> (r:
        EdgeId)
        requires
            old(self).wf(),
            old(self).valid_node_id(node_a),
            old(self).valid_node_id(node_b),
            node_a != node_b,
            speed >= 1,
            1 <= size <= MAX_LANES,
            old(self).edges_seq().len() < 0xFFFF_FFFF_FFFF_FFFF,
        ensures
            final(self).wf(),
            final(self).spec_cfg() == old(self).spec_cfg(),
            r.0 == old(self).edges_seq().len() + 1,
            final(self).valid_edge_id(r),
            final(self).edges_seq().len() == old(self).edges_seq().len() + 1,
            final(self).edge_at(r).spec_id() == r,
            final(self).edge_at(r).spec_nodes() == (node_a, node_b),
            final(self).edge_at(r).spec_speed() == speed,
            final(self).edge_at(r).spec_lanes().lanes_seq().len() == size,
            forall|k: int|
                0 <= k < old(self).edges_seq().len() ==> final(self).edges_seq()[k] == old(
                    self,
                ).edges_seq()[k],
            final(self).nodes_seq().len() == old(self).nodes_seq().len(),
            forall|i: int|
                0 <= i < old(self).nodes_seq().len() && i != node_a.0 - 1 && i != node_b.0 - 1
                    ==> final(self).nodes_seq()[i] == old(self).nodes_seq()[i],
            final(self).node_at(node_a).spec_id() == node_a,
            final(self).node_at(node_b).spec_id() == node_b,
            final(self).node_at(node_a).spec_pos() == old(self).node_at(node_a).spec_pos(),
            final(self).node_at(node_b).spec_pos() == old(self).node_at(node_b).spec_pos(),
            final(self).node_at(node_a).spec_edges() == old(self).node_at(
                node_a,
            ).spec_edges().push(r),
            final(self).node_at(node_b).spec_edges() == old(self).node_at(
                node_b,
            ).spec_edges().push(r),
            final(self).tested_seq() == old(self).tested_seq(),
            final(self).node_lookup_map() == old(self).node_lookup_map(),
            registered_only(old(self).edge_lookup_map(), final(self).edge_lookup_map(), r),
            final(self).edge_bucket_contains(
                chunk_key(spec_chunk_of(old(self).node_at(node_a).spec_pos(), old(self).spec_cfg())),
                r,
            ),
            final(self).edge_bucket_contains(
                chunk_key(spec_chunk_of(old(self).node_at(node_b).spec_pos(), old(self).spec_cfg())),
                r,
            ),
    {
        let raw = self.edge_ids.next_id();
        let id = EdgeId(raw);
        let lane_def = LaneDefinition::new(size);
        let edge = Edge { id, nodes: (node_a, node_b), speed, lane_def };
        let ghost gedge = edge;
        self.edges.push(edge);
        let nodes_len = self.nodes.len();
        proof {
            assert(node_a.0 - 1 < nodes_len && node_b.0 - 1 < nodes_len);
        }
        let ia = (node_a.0 - 1) as usize;
        let ib = (node_b.0 - 1) as usize;
        proof {
            assert(old(self).nodes_seq()[node_a.0 - 1].spec_id().0 == node_a.0) by {
                assert(old(self).node_entry_wf(node_a.0 - 1));
            }
            assert(old(self).nodes_seq()[node_b.0 - 1].spec_id().0 == node_b.0) by {
                assert(old(self).node_entry_wf(node_b.0 - 1));
            }
            assert(ia != ib);
        }
        self.nodes[ia].edges.push(id);
        let a_pos = self.nodes[ia].pos;
        self.nodes[ib].edges.push(id);
        let b_pos = self.nodes[ib].pos;
        proof {
            let old_self = *old(self);
            let mid = *self;
            let n = old_self.nodes_seq().len() as int;
            let m = old_self.edges_seq().len() as int;
            assert(mid.nodes_seq()[ia as int].spec_edges() == old_self.nodes_seq()[
                ia as int
            ].spec_edges().push(id));
            assert(mid.nodes_seq()[ib as int].spec_edges() == old_self.nodes_seq()[
                ib as int
            ].spec_edges().push(id));
            assert(a_pos == old_self.node_at(node_a).spec_pos());
            assert(b_pos == old_self.node_at(node_b).spec_pos());
            assert(comp_bounded(a_pos, old_self.spec_cfg().world_limit()) && comp_bounded(
                b_pos,
                old_self.spec_cfg().world_limit(),
            )) by {
                assert(old_self.node_entry_wf(ia as int));
                assert(old_self.node_entry_wf(ib as int));
            }
            // Every node entry is still well-formed: untouched nodes kept
            // their lists, and the two endpoints appended one fresh id.
            assert forall|i: int| 0 <= i < n implies mid.node_entry_wf(i) by {
                assert(old_self.node_entry_wf(i));
                let oldn = old_self.nodes_seq()[i];
                let newn = mid.nodes_seq()[i];
                if i != ia as int && i != ib as int {
                    assert(newn == oldn);
                    assert forall|j: int| 0 <= j < newn.spec_edges().len() implies mid
                        .valid_edge_id(#[trigger] newn.spec_edges()[j]) && mid.edge_at(
                        newn.spec_edges()[j],
                    ).has_endpoint(newn.spec_id()) by {
                        assert(old_self.valid_edge_id(oldn.spec_edges()[j]));
                        assert(mid.edge_at(newn.spec_edges()[j]) == old_self.edge_at(
                            oldn.spec_edges()[j],
                        ));
                    }
                } else {
                    let oldlist = oldn.spec_edges();
                    let newlist = newn.spec_edges();
                    assert(newlist == oldlist.push(id));
                    assert(newn.spec_id() == oldn.spec_id());
                    assert(newn.spec_pos() == oldn.spec_pos());
                    assert forall|j: int| 0 <= j < newlist.len() implies mid.valid_edge_id(
                        #[trigger] newlist[j],
                    ) && mid.edge_at(newlist[j]).has_endpoint(newn.spec_id()) by {
                        if j < oldlist.len() {
                            assert(newlist[j] == oldlist[j]);
                            assert(old_self.valid_edge_id(oldlist[j]));
                            assert(mid.edge_at(newlist[j]) == old_self.edge_at(oldlist[j]));
                        } else {
                            assert(newlist[j] == id);
                            assert(mid.edge_at(id) == gedge);
                        }
                    }
                    assert(newlist.no_duplicates()) by {
                        assert forall|p: int, q: int|
                            0 <= p < newlist.len() && 0 <= q < newlist.len() && p != q implies
                            newlist[p] != newlist[q] by {
                            if p < oldlist.len() && q < oldlist.len() {
                                assert(oldlist[p] != oldlist[q]);
                            } else if p < oldlist.len() {
                                assert(old_self.valid_edge_id(oldlist[p]));
                                assert(oldlist[p].0 <= m < id.0);
                            } else {
                                assert(old_self.valid_edge_id(oldlist[q]));
                                assert(oldlist[q].0 <= m < id.0);
                            }
                        }
                    }
                }
            }
            // Every edge entry is still well-formed: old edges' incidence
            // survives the two appends, and the new edge is listed by both
            // of its endpoints.
            assert forall|k: int| 0 <= k < m + 1 implies mid.edge_entry_wf(k) by {
                if k < m {
                    assert(old_self.edge_entry_wf(k));
                    let e = old_self.edges_seq()[k];
                    assert(mid.edges_seq()[k] == e);
                    let n0 = e.spec_nodes().0;
                    let n1 = e.spec_nodes().1;
                    assert(old_self.node_at(n0).spec_edges().contains(e.spec_id()));
                    assert(old_self.node_at(n1).spec_edges().contains(e.spec_id()));
                    assert(mid.node_at(n0).spec_edges().contains(e.spec_id())) by {
                        let w = choose|w: int|
                            0 <= w < old_self.node_at(n0).spec_edges().len() && old_self.node_at(
                                n0,
                            ).spec_edges()[w] == e.spec_id();
                        assert(mid.node_at(n0).spec_edges()[w] == e.spec_id());
                    }
                    assert(mid.node_at(n1).spec_edges().contains(e.spec_id())) by {
                        let w = choose|w: int|
                            0 <= w < old_self.node_at(n1).spec_edges().len() && old_self.node_at(
                                n1,
                            ).spec_edges()[w] == e.spec_id();
                        assert(mid.node_at(n1).spec_edges()[w] == e.spec_id());
                    }
                } else {
                    assert(mid.edges_seq()[k] == gedge);
                    let alist = mid.node_at(node_a).spec_edges();
                    let blist = mid.node_at(node_b).spec_edges();
                    assert(alist[alist.len() - 1] == id);
                    assert(blist[blist.len() - 1] == id);
                }
            }
            // The node index is untouched: positions and ids of all nodes
            // are as before.
            assert(mid.node_lookup_wf()) by {
                assert forall|i: int| 0 <= i < n implies {
                    let key = mid.chunk_key_of((#[trigger] mid.nodes_seq()[i]).spec_pos());
                    &&& mid.node_lookup_map().contains_key(key)
                    &&& mid.node_lookup_map()[key]@.contains(mid.nodes_seq()[i].spec_id())
                } by {
                    assert(mid.nodes_seq()[i].spec_pos() == old_self.nodes_seq()[i].spec_pos());
                    assert(mid.nodes_seq()[i].spec_id() == old_self.nodes_seq()[i].spec_id());
                    assert(old_self.node_lookup_map().contains_key(
                        old_self.chunk_key_of(old_self.nodes_seq()[i].spec_pos()),
                    ));
                }
                assert forall|key: u64, j: int|
                    mid.node_lookup_map().contains_key(key) && 0 <= j < mid.node_lookup_map()[
                        key
                    ]@.len() implies mid.valid_node_id(
                    #[trigger] mid.node_lookup_map()[key]@[j],
                ) by {
                    assert(old_self.valid_node_id(old_self.node_lookup_map()[key]@[j]));
                }
            }
            assert(mid.edge_lookup_wf()) by {
                assert forall|key: u64, j: int|
                    mid.edge_lookup_map().contains_key(key) && 0 <= j < mid.edge_lookup_map()[
                        key
                    ]@.len() implies mid.valid_edge_id(
                    #[trigger] mid.edge_lookup_map()[key]@[j],
                ) by {
                    assert(old_self.valid_edge_id(old_self.edge_lookup_map()[key]@[j]));
                }
            }
            assert forall|j: int| 0 <= j < mid.tested_seq().len() implies mid.valid_node_id(
                #[trigger] mid.tested_seq()[j],
            ) by {
                assert(old_self.valid_node_id(old_self.tested_seq()[j]));
            }
            assert(mid.wf());
        }
        // Register the edge under every chunk its segment traverses.
        let chunks = edge_chunks(a_pos, b_pos, self.cfg);
        let ghost frozen = *self;
        let mut t: usize = 0;
        while t < chunks.len()
            invariant
                self.wf(),
                frozen.wf(),
                t <= chunks@.len(),
                self.nodes_seq() == frozen.nodes_seq(),
                self.edges_seq() == frozen.edges_seq(),
                self.spec_cfg() == frozen.spec_cfg(),
                self.node_lookup_map() == frozen.node_lookup_map(),
                self.tested_seq() == frozen.tested_seq(),
                self.nodes_issued() == frozen.nodes_issued(),
                self.edges_issued() == frozen.edges_issued(),
                self.valid_edge_id(id),
                forall|u: int| 0 <= u < chunks@.len() ==> in_chunk_bounds(#[trigger] chunks@[u], self.spec_cfg()),
                chunks@.len() >= 1,
                chunks@[0] == spec_chunk_of(a_pos, self.spec_cfg()),
                chunks@[chunks@.len() - 1] == spec_chunk_of(b_pos, self.spec_cfg()),
                registered_only(frozen.edge_lookup_map(), self.edge_lookup_map(), id),
                forall|u: int|
                    0 <= u < t ==> self.edge_bucket_contains(
                        chunk_key(#[trigger] chunks@[u]),
                        id,
                    ),
            decreases chunks@.len() - t,
        {
            let c = chunks[t];
            proof {
                assert(self.spec_cfg().chunk_radius <= 0x10_0000) by (nonlinear_arith)
                    requires
                        2 * NODE_RADIUS < self.spec_cfg().chunk_size,
                        1 <= self.spec_cfg().chunk_radius,
                        self.spec_cfg().chunk_size * self.spec_cfg().chunk_radius <= 0x10_0000,
                ;
            }
            let key = encode_chunk(c);
            let ghost pre = *self;
            self.edge_lookup_push(key, id);
            proof {
                let post = *self;
                assert(post.edge_lookup_wf()) by {
                    assert forall|key2: u64, j: int|
                        post.edge_lookup_map().contains_key(key2) && 0 <= j
                            < post.edge_lookup_map()[key2]@.len() implies post.valid_edge_id(
                        #[trigger] post.edge_lookup_map()[key2]@[j],
                    ) by {
                        if key2 == key {
                            let bucket = post.edge_lookup_map()[key]@;
                            if pre.edge_lookup_map().contains_key(key) {
                                if j < bucket.len() - 1 {
                                    assert(bucket[j] == pre.edge_lookup_map()[key]@[j]);
                                    assert(pre.valid_edge_id(bucket[j]));
                                } else {
                                    assert(bucket[j] == id);
                                }
                            } else {
                                assert(bucket[j] == id);
                            }
                        } else {
                            assert(post.edge_lookup_map()[key2] == pre.edge_lookup_map()[key2]);
                            assert(pre.valid_edge_id(pre.edge_lookup_map()[key2]@[j]));
                        }
                    }
                }
                lemma_wf_after_edge_lookup_change(pre, post);
                assert(key == chunk_key(chunks@[t as int])) by {
                    crate::chunk::lemma_encode_range(c);
                }
                assert(registered_only(frozen.edge_lookup_map(), post.edge_lookup_map(), id)) by {
                    let fm = frozen.edge_lookup_map();
                    let pm = pre.edge_lookup_map();
                    let nm = post.edge_lookup_map();
                    assert forall|k: u64| fm.contains_key(k) implies #[trigger] nm.contains_key(
                        k,
                    ) by {
                        assert(pm.contains_key(k));
                    }
                    assert forall|k: u64|
                        #[trigger] nm.contains_key(k) && !fm.contains_key(k) implies (forall|
                            u: int,
                        |
                            0 <= u < nm[k]@.len() ==> nm[k]@[u] == id) by {
                        if k == key {
                            assert forall|u: int| 0 <= u < nm[k]@.len() implies nm[k]@[u]
                                == id by {
                                if pm.contains_key(key) {
                                    if u < pm[key]@.len() {
                                        assert(nm[k]@[u] == pm[key]@[u]);
                                        assert(pm[key]@[u] == id);
                                    } else {
                                        assert(nm[k]@[u] == id);
                                    }
                                } else {
                                    assert(nm[k]@[u] == id);
                                }
                            }
                        } else {
                            assert(nm[k] == pm[k]);
                            assert(pm.contains_key(k));
                        }
                    }
                    assert forall|k: u64| fm.contains_key(k) implies {
                        let ob = (#[trigger] fm[k])@;
                        let nb = nm[k]@;
                        &&& nb.len() >= ob.len()
                        &&& (forall|u: int| 0 <= u < ob.len() ==> nb[u] == ob[u])
                        &&& (forall|u: int| ob.len() <= u < nb.len() ==> nb[u] == id)
                    } by {
                        let ob = fm[k]@;
                        let pb = pm[k]@;
                        assert(pm.contains_key(k));
                        if k == key {
                            assert(nm[k]@ == pb.push(id));
                        } else {
                            assert(nm[k] == pm[k]);
                        }
                    }
                }
                assert forall|u: int| 0 <= u < t + 1 implies post.edge_bucket_contains(
                    chunk_key(#[trigger] chunks@[u]),
                    id,
                ) by {
                    let ku = chunk_key(chunks@[u]);
                    if u < t {
                        assert(pre.edge_bucket_contains(ku, id));
                        let w = choose|w: int|
                            0 <= w < pre.edge_lookup_map()[ku]@.len() && pre.edge_lookup_map()[
                                ku
                            ]@[w] == id;
                        if ku == key {
                            assert(post.edge_lookup_map()[ku]@[w] == id);
                        } else {
                            assert(post.edge_lookup_map()[ku] == pre.edge_lookup_map()[ku]);
                        }
                    } else {
                        assert(ku == key);
                        let nb = post.edge_lookup_map()[key]@;
                        assert(nb[nb.len() - 1] == id);
                    }
                }
            }
            t = t + 1;
        }
        proof {
            assert(self.edge_bucket_contains(chunk_key(chunks@[0]), id));
            assert(self.edge_bucket_contains(chunk_key(chunks@[chunks@.len() - 1]), id));
        }
        id
    }
}

/// Exactly how a spatial-index side may change when one id is
/// registered: no bucket loses an entry or changes an existing one,
/// buckets grow only by copies of `id` at their end, and any freshly
/// created bucket holds nothing but `id`.
pub open spec fn registered_only<I>(
    old_m: Map<u64, Vec<I>>,
    new_m: Map<u64, Vec<I>>,
    id: I,
) -> bool {
    &&& forall|k: u64| old_m.contains_key(k) ==> #[trigger] new_m.contains_key(k)
    &&& forall|k: u64|
        #[trigger] new_m.contains_key(k) && !old_m.contains_key(k) ==> (forall|u: int|
            0 <= u < new_m[k]@.len() ==> new_m[k]@[u] == id)
    &&& forall|k: u64|
        old_m.contains_key(k) ==> {
            let ob = (#[trigger] old_m[k])@;
            let nb = new_m[k]@;
            &&& nb.len() >= ob.len()
            &&& (forall|u: int| 0 <= u < ob.len() ==> nb[u] == ob[u])
            &&& (forall|u: int| ob.len() <= u < nb.len() ==> nb[u] == id)
        }
}

/// The node bucket under `key`, or empty when the key is absent.
pub open spec fn node_bucket_seq(m: Map<u64, Vec<NodeId>>, key: u64) -> Seq<NodeId> {
    if m.contains_key(key) {
        m[key]@
    } else {
        Seq::empty()
    }
}

/// Every node id a point query examines, in scan order: the buckets of
/// the given chunks, concatenated.
pub open spec fn node_scan(m: Map<u64, Vec<NodeId>>, chunks: Seq<ChunkPos>) -> Seq<NodeId>
    decreases chunks.len(),
{
    if chunks.len() == 0 {
        Seq::empty()
    } else {
        node_bucket_seq(m, chunk_key(chunks[0])) + node_scan(m, chunks.drop_first())
    }
}

/// The scan splits at any point into the scan of a prefix and the scan
/// of the rest.
proof fn lemma_node_scan_split(m: Map<u64, Vec<NodeId>>, chunks: Seq<ChunkPos>, t: int)
    requires
        0 <= t <= chunks.len(),
    ensures
        node_scan(m, chunks) == node_scan(m, chunks.take(t)) + node_scan(m, chunks.skip(t)),
    decreases t,
{
    if t == 0 {
        assert(chunks.take(0) =~= Seq::<ChunkPos>::empty());
        assert(chunks.skip(0) =~= chunks);
        assert(node_scan(m, chunks.take(0)) + node_scan(m, chunks.skip(0)) =~= node_scan(
            m,
            chunks,
        ));
    } else {
        let df = chunks.drop_first();
        lemma_node_scan_split(m, df, t - 1);
        assert(chunks.take(t)[0] == chunks[0]);
        assert(chunks.take(t).drop_first() =~= df.take(t - 1));
        assert(chunks.skip(t) =~= df.skip(t - 1));
        assert(node_scan(m, chunks.take(t)) == node_bucket_seq(m, chunk_key(chunks[0]))
            + node_scan(m, df.take(t - 1)));
        assert(node_scan(m, chunks) =~= node_scan(m, chunks.take(t)) + node_scan(
            m,
            chunks.skip(t),
        ));
    }
}

/// Every node registered under `key` lies strictly outside the node
/// interaction radius of `pos`.
spec fn bucket_all_far(m: NodeManager, key: u64, pos: Vec2I) -> bool {
    m.node_lookup_map().contains_key(key) ==> forall|j: int|
        0 <= j < m.node_lookup_map()[key]@.len() ==> dist_sq(
            m.node_at(#[trigger] m.node_lookup_map()[key]@[j]).spec_pos(),
            pos,
        ) > NODE_RADIUS * NODE_RADIUS
}

impl NodeManager {
    /// Whether the node named by `id` lies within the node interaction
    /// radius of `pos`.
    pub open spec fn node_within_radius(self, id: NodeId, pos: Vec2I) -> bool {
        dist_sq(self.node_at(id).spec_pos(), pos) <= NODE_RADIUS * NODE_RADIUS
    }

    /// Whether the edge index lists `id` under `key`.
    pub open spec fn edge_bucket_contains(self, key: u64, id: EdgeId) -> bool {
        self.edge_lookup_map().contains_key(key) && self.edge_lookup_map()[key]@.contains(id)
    }

    /// Every edge registered under `key` stays strictly outside half a
    /// node radius of `pos`.
    pub open spec fn edge_bucket_far(self, key: u64, pos: Vec2I) -> bool {
        self.edge_lookup_map().contains_key(key) ==> forall|j: int|
            0 <= j < self.edge_lookup_map()[key]@.len() ==> !self.edge_within_half_radius(
                #[trigger] self.edge_lookup_map()[key]@[j],
                pos,
            )
    }

    /// Whether the segment of edge `e` passes within half a node radius
    /// of `p`.
    pub open spec fn edge_within_half_radius(self, e: EdgeId, p: Vec2I) -> bool {
        let a = self.node_at(self.edge_at(e).spec_nodes().0).spec_pos();
        let b = self.node_at(self.edge_at(e).spec_nodes().1).spec_pos();
        seg_dist_sq_num(a, b, p) <= NODE_HALF_RADIUS * NODE_HALF_RADIUS * seg_dist_sq_den(
            a,
            b,
            p,
        )
    }

    /// Find a node whose centre lies within the node radius of `pos`,
    /// scanning only the chunks near `pos`. The first hit in bucket scan
    /// order wins, so repeated calls on an unmodified store agree;
    /// `None` guarantees that no node anywhere is that close. The ids
    /// examined are recorded for diagnostics. A query position beyond
    /// the world bound saturates to it.
    pub fn try_node_collision(&mut self, pos: Vec2I) -> (r: Option<NodeId>)
        requires
            old(self).wf(),
        ensures
            final(self).wf(),
            final(self).nodes_seq() == old(self).nodes_seq(),
            final(self).edges_seq() == old(self).edges_seq(),
            final(self).spec_cfg() == old(self).spec_cfg(),
            final(self).node_lookup_map() == old(self).node_lookup_map(),
            final(self).edge_lookup_map() == old(self).edge_lookup_map(),
            match r {
                Some(id) => final(self).valid_node_id(id) && dist_sq(
                    final(self).node_at(id).spec_pos(),
                    spec_clamp_world(pos, old(self).spec_cfg()),
                ) <= NODE_RADIUS * NODE_RADIUS,
                None => forall|id: NodeId|
                    final(self).valid_node_id(id) ==> dist_sq(
                        final(self).node_at(id).spec_pos(),
                        spec_clamp_world(pos, old(self).spec_cfg()),
                    ) > NODE_RADIUS * NODE_RADIUS,
            },
            ({
                let q = spec_clamp_world(pos, old(self).spec_cfg());
                let scan = node_scan(
                    old(self).node_lookup_map(),
                    spec_area(q, old(self).spec_cfg()),
                );
                match r {
                    Some(id) => exists|k: int|
                        {
                            &&& 0 <= k < scan.len()
                            &&& scan[k] == id
                            &&& forall|u: int|
                                0 <= u < k ==> !old(self).node_within_radius(#[trigger] scan[u], q)
                            &&& final(self).tested_seq() == scan.take(k + 1)
                        },
                    None => final(self).tested_seq() == scan,
                }
            }),
    {
        let qpos = clamp_world(pos, self.cfg);
        let ghost old_self = *old(self);
        self.tested.clear();
        let area = get_area(qpos, self.cfg);
        let radius_sq: u64 = Node::radius().sqr() as u64;
        let mut t: usize = 0;
        while t < area.len()
            invariant
                old_self == *old(self),
                old_self.wf(),
                comp_bounded(qpos, old_self.spec_cfg().world_limit()),
                self.nodes_seq() == old_self.nodes_seq(),
                self.edges_seq() == old_self.edges_seq(),
                self.spec_cfg() == old_self.spec_cfg(),
                self.node_lookup_map() == old_self.node_lookup_map(),
                self.edge_lookup_map() == old_self.edge_lookup_map(),
                self.nodes_issued() == old_self.nodes_issued(),
                self.edges_issued() == old_self.edges_issued(),
                forall|j: int|
                    0 <= j < self.tested_seq().len() ==> old_self.valid_node_id(
                        #[trigger] self.tested_seq()[j],
                    ),
                radius_sq == NODE_RADIUS * NODE_RADIUS,
                t <= area@.len(),
                qpos == spec_clamp_world(pos, old_self.spec_cfg()),
                area@ == spec_area(qpos, old_self.spec_cfg()),
                self.tested_seq() == node_scan(old_self.node_lookup_map(), area@.take(t as int)),
                forall|u: int|
                    0 <= u < self.tested_seq().len() ==> !old_self.node_within_radius(
                        #[trigger] self.tested_seq()[u],
                        qpos,
                    ),
                forall|u: int|
                    0 <= u < area@.len() ==> in_chunk_bounds(#[trigger] area@[u], old_self.spec_cfg()),
                forall|q: Vec2I|
                    comp_bounded(q, old_self.spec_cfg().world_limit()) && dist_sq(q, qpos)
                        <= NODE_RADIUS * NODE_RADIUS ==> area@.contains(
                        spec_chunk_of(q, old_self.spec_cfg()),
                    ),
                forall|u: int|
                    0 <= u < t ==> bucket_all_far(old_self, chunk_key(#[trigger] area@[u]), qpos),
            decreases area@.len() - t,
        {
            let c = area[t];
            proof {
                assert(old_self.spec_cfg().chunk_radius <= 0x10_0000) by (nonlinear_arith)
                    requires
                        2 * NODE_RADIUS < old_self.spec_cfg().chunk_size,
                        1 <= old_self.spec_cfg().chunk_radius,
                        old_self.spec_cfg().chunk_size * old_self.spec_cfg().chunk_radius
                            <= 0x10_0000,
                ;
            }
            let key = encode_chunk(c);
            proof {
                crate::chunk::lemma_encode_range(c);
                assert(key == chunk_key(area@[t as int]));
            }
            match self.node_lookup.get(&key) {
                Some(bucket) => {
                    let ghost bseq = bucket@;
                    proof {
                        assert(bseq.take(0) =~= Seq::<NodeId>::empty());
                        assert(self.tested_seq() =~= node_scan(
                            old_self.node_lookup_map(),
                            area@.take(t as int),
                        ) + bseq.take(0));
                    }
                    let mut j: usize = 0;
                    while j < bucket.len()
                        invariant
                            old_self == *old(self),
                            old_self.wf(),
                            comp_bounded(qpos, old_self.spec_cfg().world_limit()),
                            self.nodes_seq() == old_self.nodes_seq(),
                            self.edges_seq() == old_self.edges_seq(),
                            self.spec_cfg() == old_self.spec_cfg(),
                            self.node_lookup_map() == old_self.node_lookup_map(),
                            self.edge_lookup_map() == old_self.edge_lookup_map(),
                            self.nodes_issued() == old_self.nodes_issued(),
                            self.edges_issued() == old_self.edges_issued(),
                            forall|jj: int|
                                0 <= jj < self.tested_seq().len() ==> old_self.valid_node_id(
                                    #[trigger] self.tested_seq()[jj],
                                ),
                            radius_sq == NODE_RADIUS * NODE_RADIUS,
                            old_self.node_lookup_map().contains_key(key),
                            bucket@ == bseq,
                            bseq == old_self.node_lookup_map()[key]@,
                            j <= bseq.len(),
                            t < area@.len(),
                            qpos == spec_clamp_world(pos, old_self.spec_cfg()),
                            area@ == spec_area(qpos, old_self.spec_cfg()),
                            key == chunk_key(area@[t as int]),
                            self.tested_seq() == node_scan(
                                old_self.node_lookup_map(),
                                area@.take(t as int),
                            ) + bseq.take(j as int),
                            forall|u: int|
                                0 <= u < self.tested_seq().len() ==> !old_self.node_within_radius(
                                    #[trigger] self.tested_seq()[u],
                                    qpos,
                                ),
                            forall|jj: int|
                                0 <= jj < j ==> dist_sq(
                                    old_self.node_at(#[trigger] bseq[jj]).spec_pos(),
                                    qpos,
                                ) > NODE_RADIUS * NODE_RADIUS,
                        decreases bseq.len() - j,
                    {
                        let id = bucket[j];
                        let ghost pre_tested = self.tested_seq();
                        self.tested.push(id);
                        proof {
                            assert(old_self.valid_node_id(id));
                            assert(old_self.node_entry_wf(id.0 - 1));
                            assert(old_self.spec_cfg().world_limit() <= 0x10_0000);
                            assert forall|jj: int| 0 <= jj < self.tested_seq().len() implies
                                old_self.valid_node_id(#[trigger] self.tested_seq()[jj]) by {
                                if jj < pre_tested.len() {
                                    assert(self.tested_seq()[jj] == pre_tested[jj]);
                                } else {
                                    assert(self.tested_seq()[jj] == id);
                                }
                            }
                        }
                        proof {
                            assert(self.tested_seq() =~= node_scan(
                                old_self.node_lookup_map(),
                                area@.take(t as int),
                            ) + bseq.take(j as int + 1));
                        }
                        let npos = self.get_node_pos(id).unwrap();
                        if dist_sq_exec(npos, qpos) <= radius_sq {
                            proof {
                                lemma_wf_frame(old_self, *self);
                                let m0 = old_self.node_lookup_map();
                                let s1 = node_scan(m0, area@.take(t as int));
                                let scan = node_scan(m0, area@);
                                lemma_node_scan_split(m0, area@, t as int);
                                assert(area@.skip(t as int)[0] == area@[t as int]);
                                assert(area@.skip(t as int).drop_first() =~= area@.skip(
                                    t as int + 1,
                                ));
                                assert(node_scan(m0, area@.skip(t as int)) == node_bucket_seq(
                                    m0,
                                    key,
                                ) + node_scan(m0, area@.skip(t as int).drop_first()));
                                assert(scan =~= s1 + bseq + node_scan(
                                    m0,
                                    area@.skip(t as int + 1),
                                ));
                                let k = s1.len() as int + j as int;
                                assert(scan[k] == bseq[j as int]);
                                assert(self.tested_seq() =~= scan.take(k + 1));
                                assert forall|u: int| 0 <= u < k implies !old_self
                                    .node_within_radius(#[trigger] scan[u], qpos) by {
                                    assert(scan[u] == self.tested_seq()[u]);
                                    assert(u < pre_tested.len());
                                    assert(self.tested_seq()[u] == pre_tested[u]);
                                }
                                assert(0 <= k < scan.len() && scan[k] == id && self.tested_seq()
                                    == scan.take(k + 1));
                            }
                            return Some(id);
                        }
                        proof {
                            assert(!old_self.node_within_radius(id, qpos));
                            assert forall|u: int| 0 <= u < self.tested_seq().len() implies
                                !old_self.node_within_radius(
                                #[trigger] self.tested_seq()[u],
                                qpos,
                            ) by {
                                if u < pre_tested.len() {
                                    assert(self.tested_seq()[u] == pre_tested[u]);
                                } else {
                                    assert(self.tested_seq()[u] == id);
                                }
                            }
                        }
                        j = j + 1;
                    }
                    proof {
                        let m0 = old_self.node_lookup_map();
                        lemma_node_scan_split(m0, area@.take(t as int + 1), t as int);
                        assert(area@.take(t as int + 1).take(t as int) =~= area@.take(t as int));
                        assert(area@.take(t as int + 1).skip(t as int) =~= seq![area@[t as int]]);
                        let single = seq![area@[t as int]];
                        assert(single.len() == 1 && single[0] == area@[t as int]);
                        assert(single.drop_first() =~= Seq::<ChunkPos>::empty());
                        assert(node_scan(m0, Seq::<ChunkPos>::empty()) =~= Seq::<NodeId>::empty());
                        assert(node_scan(m0, single.drop_first()) == node_scan(
                            m0,
                            Seq::<ChunkPos>::empty(),
                        ));
                        assert(node_scan(m0, single) =~= node_bucket_seq(m0, key));
                        assert(bseq.take(bseq.len() as int) =~= bseq);
                        assert(self.tested_seq() =~= node_scan(m0, area@.take(t as int + 1)));
                    }
                },
                None => {
                    proof {
                        let m0 = old_self.node_lookup_map();
                        assert(!m0.contains_key(key));
                        lemma_node_scan_split(m0, area@.take(t as int + 1), t as int);
                        assert(area@.take(t as int + 1).take(t as int) =~= area@.take(t as int));
                        assert(area@.take(t as int + 1).skip(t as int) =~= seq![area@[t as int]]);
                        let single = seq![area@[t as int]];
                        assert(single.len() == 1 && single[0] == area@[t as int]);
                        assert(single.drop_first() =~= Seq::<ChunkPos>::empty());
                        assert(node_scan(m0, Seq::<ChunkPos>::empty()) =~= Seq::<NodeId>::empty());
                        assert(node_scan(m0, single.drop_first()) == node_scan(
                            m0,
                            Seq::<ChunkPos>::empty(),
                        ));
                        assert(node_scan(m0, single) =~= node_bucket_seq(m0, key));
                        assert(self.tested_seq() =~= node_scan(m0, area@.take(t as int + 1)));
                    }
                },
            }
            proof {
                assert(bucket_all_far(old_self, chunk_key(area@[t as int]), qpos));
            }
            t = t + 1;
        }
        proof {
            lemma_wf_frame(old_self, *self);
            assert(area@.take(area@.len() as int) =~= area@);
            assert(self.tested_seq() == node_scan(old_self.node_lookup_map(), area@));
            assert forall|id: NodeId| self.valid_node_id(id) implies dist_sq(
                self.node_at(id).spec_pos(),
                qpos,
            ) > NODE_RADIUS * NODE_RADIUS by {
                let q = old_self.node_at(id).spec_pos();
                assert(old_self.node_entry_wf(id.0 - 1));
                if dist_sq(q, qpos) <= NODE_RADIUS * NODE_RADIUS {
                    assert(area@.contains(spec_chunk_of(q, old_self.spec_cfg())));
                    let u = choose|u: int|
                        0 <= u < area@.len() && area@[u] == spec_chunk_of(q, old_self.spec_cfg());
                    let key2 = old_self.chunk_key_of(q);
                    assert(old_self.node_lookup_map().contains_key(key2)
                        && old_self.node_lookup_map()[key2]@.contains(
                        old_self.nodes_seq()[id.0 - 1].spec_id(),
                    ));
                    assert(old_self.nodes_seq()[id.0 - 1].spec_id() == id) by {
                        assert(old_self.nodes_seq()[id.0 - 1].spec_id().0 == id.0);
                    }
                    let w = choose|w: int|
                        0 <= w < old_self.node_lookup_map()[key2]@.len()
                            && old_self.node_lookup_map()[key2]@[w] == id;
                    assert(bucket_all_far(old_self, chunk_key(area@[u]), qpos));
                    assert(chunk_key(area@[u]) == key2);
                    assert(dist_sq(old_self.node_at(id).spec_pos(), qpos) > NODE_RADIUS
                        * NODE_RADIUS);
                }
            }
        }
        None
    }

    /// Find an edge whose segment passes within half a node radius of
    /// `pos`, scanning only the chunks near `pos`. The first hit in
    /// bucket scan order wins. On `None`, no edge registered under any
    /// scanned chunk passes that close. A query position beyond the
    /// world bound saturates to it.
    pub fn try_edge_collision(&self, pos: Vec2I) -> (r: Option<EdgeId>)
        requires
            self.wf(),
        ensures
            r is Some ==> self.valid_edge_id(r.unwrap()) && self.edge_within_half_radius(
                r.unwrap(),
                spec_clamp_world(pos, self.spec_cfg()),
            ),
            r is None ==> forall|t: int|
                0 <= t < spec_area(spec_clamp_world(pos, self.spec_cfg()), self.spec_cfg()).len()
                    ==> self.edge_bucket_far(
                    chunk_key(
                        #[trigger] spec_area(
                            spec_clamp_world(pos, self.spec_cfg()),
                            self.spec_cfg(),
                        )[t],
                    ),
                    spec_clamp_world(pos, self.spec_cfg()),
                ),
    {
        let qpos = clamp_world(pos, self.cfg);
        let area = get_area(qpos, self.cfg);
        let mut t: usize = 0;
        while t < area.len()
            invariant
                self.wf(),
                comp_bounded(qpos, self.spec_cfg().world_limit()),
                t <= area@.len(),
                qpos == spec_clamp_world(pos, self.spec_cfg()),
                area@ == spec_area(qpos, self.spec_cfg()),
                forall|u: int|
                    0 <= u < area@.len() ==> in_chunk_bounds(#[trigger] area@[u], self.spec_cfg()),
                forall|u: int|
                    0 <= u < t ==> self.edge_bucket_far(
                        chunk_key(#[trigger] area@[u]),
                        qpos,
                    ),
            decreases area@.len() - t,
        {
            let c = area[t];
            proof {
                assert(self.spec_cfg().chunk_radius <= 0x10_0000) by (nonlinear_arith)
                    requires
                        2 * NODE_RADIUS < self.spec_cfg().chunk_size,
                        1 <= self.spec_cfg().chunk_radius,
                        self.spec_cfg().chunk_size * self.spec_cfg().chunk_radius <= 0x10_0000,
                ;
            }
            let key = encode_chunk(c);
            proof {
                crate::chunk::lemma_encode_range(c);
                assert(key == chunk_key(area@[t as int]));
            }
            match self.edge_lookup.get(&key) {
                Some(bucket) => {
                    let mut j: usize = 0;
                    while j < bucket.len()
                        invariant
                            self.wf(),
                            comp_bounded(qpos, self.spec_cfg().world_limit()),
                            qpos == spec_clamp_world(pos, self.spec_cfg()),
                            self.edge_lookup_map().contains_key(key),
                            bucket@ == self.edge_lookup_map()[key]@,
                            j <= bucket@.len(),
                            forall|u: int|
                                0 <= u < j ==> !self.edge_within_half_radius(
                                    #[trigger] bucket@[u],
                                    qpos,
                                ),
                        decreases bucket@.len() - j,
                    {
                        let id = bucket[j];
                        proof {
                            assert(self.valid_edge_id(id));
                            assert(self.edge_entry_wf(id.0 - 1));
                            assert(self.edge_at(id).spec_id() == id) by {
                                assert(self.edge_at(id).spec_id().0 == id.0);
                            }
                        }
                        let edge = self.get_edge(id).unwrap();
                        let (num, den) = edge.distance_to_sqr(self, qpos);
                        proof {
                            assert(NODE_HALF_RADIUS * NODE_HALF_RADIUS == 25);
                        }
                        if num <= 25 * den {
                            return Some(id);
                        }
                        j = j + 1;
                    }
                    proof {
                        assert(self.edge_bucket_far(key, qpos));
                    }
                },
                None => {
                    proof {
                        assert(self.edge_bucket_far(key, qpos));
                    }
                },
            }
            t = t + 1;
        }
        None
    }
}

/// Changing only the list of examined node ids, while its entries stay
/// valid, keeps the whole store well-formed.
proof fn lemma_wf_frame(pre: NodeManager, post: NodeManager)
    requires
        pre.wf(),
        post.nodes_seq() == pre.nodes_seq(),
        post.edges_seq() == pre.edges_seq(),
        post.spec_cfg() == pre.spec_cfg(),
        post.node_lookup_map() == pre.node_lookup_map(),
        post.edge_lookup_map() == pre.edge_lookup_map(),
        post.nodes_issued() == pre.nodes_issued(),
        post.edges_issued() == pre.edges_issued(),
        forall|j: int|
            0 <= j < post.tested_seq().len() ==> pre.valid_node_id(#[trigger] post.tested_seq()[j]),
    ensures
        post.wf(),
{
    let n = pre.nodes_seq().len() as int;
    let m = pre.edges_seq().len() as int;
    assert forall|i: int| 0 <= i < n implies post.node_entry_wf(i) by {
        assert(pre.node_entry_wf(i));
        let nd = pre.nodes_seq()[i];
        assert forall|j: int| 0 <= j < nd.spec_edges().len() implies post.valid_edge_id(
            #[trigger] nd.spec_edges()[j],
        ) && post.edge_at(nd.spec_edges()[j]).has_endpoint(nd.spec_id()) by {
            assert(pre.valid_edge_id(nd.spec_edges()[j]));
            assert(post.edge_at(nd.spec_edges()[j]) == pre.edge_at(nd.spec_edges()[j]));
        }
    }
    assert forall|k: int| 0 <= k < m implies post.edge_entry_wf(k) by {
        assert(pre.edge_entry_wf(k));
        let e = pre.edges_seq()[k];
        assert(post.node_at(e.spec_nodes().0) == pre.node_at(e.spec_nodes().0));
        assert(post.node_at(e.spec_nodes().1) == pre.node_at(e.spec_nodes().1));
    }
    assert(post.node_lookup_wf()) by {
        assert forall|i: int| 0 <= i < n implies {
            let key = post.chunk_key_of((#[trigger] post.nodes_seq()[i]).spec_pos());
            &&& post.node_lookup_map().contains_key(key)
            &&& post.node_lookup_map()[key]@.contains(post.nodes_seq()[i].spec_id())
        } by {
            assert(pre.node_lookup_map().contains_key(
                pre.chunk_key_of(pre.nodes_seq()[i].spec_pos()),
            ));
        }
        assert forall|key: u64, j: int|
            post.node_lookup_map().contains_key(key) && 0 <= j < post.node_lookup_map()[
                key
            ]@.len() implies post.valid_node_id(#[trigger] post.node_lookup_map()[key]@[j]) by {
            assert(pre.valid_node_id(pre.node_lookup_map()[key]@[j]));
        }
    }
    assert(post.edge_lookup_wf()) by {
        assert forall|key: u64, j: int|
            post.edge_lookup_map().contains_key(key) && 0 <= j < post.edge_lookup_map()[
                key
            ]@.len() implies post.valid_edge_id(#[trigger] post.edge_lookup_map()[key]@[j]) by {
            assert(pre.valid_edge_id(pre.edge_lookup_map()[key]@[j]));
        }
    }
}

/// Changing only the edge index, while it stays sound, keeps the whole
/// store well-formed.
proof fn lemma_wf_after_edge_lookup_change(pre: NodeManager, post: NodeManager)
    requires
        pre.wf(),
        post.nodes_seq() == pre.nodes_seq(),
        post.edges_seq() == pre.edges_seq(),
        post.spec_cfg() == pre.spec_cfg(),
        post.node_lookup_map() == pre.node_lookup_map(),
        post.tested_seq() == pre.tested_seq(),
        post.nodes_issued() == pre.nodes_issued(),
        post.edges_issued() == pre.edges_issued(),
        post.edge_lookup_wf(),
    ensures
        post.wf(),
{
    let n = pre.nodes_seq().len() as int;
    let m = pre.edges_seq().len() as int;
    assert forall|i: int| 0 <= i < n implies post.node_entry_wf(i) by {
        assert(pre.node_entry_wf(i));
        let nd = pre.nodes_seq()[i];
        assert forall|j: int| 0 <= j < nd.spec_edges().len() implies post.valid_edge_id(
            #[trigger] nd.spec_edges()[j],
        ) && post.edge_at(nd.spec_edges()[j]).has_endpoint(nd.spec_id()) by {
            assert(pre.valid_edge_id(nd.spec_edges()[j]));
            assert(post.edge_at(nd.spec_edges()[j]) == pre.edge_at(nd.spec_edges()[j]));
        }
    }
    assert forall|k: int| 0 <= k < m implies post.edge_entry_wf(k) by {
        assert(pre.edge_entry_wf(k));
        let e = pre.edges_seq()[k];
        assert(post.node_at(e.spec_nodes().0) == pre.node_at(e.spec_nodes().0));
        assert(post.node_at(e.spec_nodes().1) == pre.node_at(e.spec_nodes().1));
    }
    assert(post.node_lookup_wf()) by {
        assert forall|i: int| 0 <= i < n implies {
            let key = post.chunk_key_of((#[trigger] post.nodes_seq()[i]).spec_pos());
            &&& post.node_lookup_map().contains_key(key)
            &&& post.node_lookup_map()[key]@.contains(post.nodes_seq()[i].spec_id())
        } by {
            assert(pre.node_lookup_map().contains_key(
                pre.chunk_key_of(pre.nodes_seq()[i].spec_pos()),
            ));
        }
        assert forall|key: u64, j: int|
            post.node_lookup_map().contains_key(key) && 0 <= j < post.node_lookup_map()[
                key
            ]@.len() implies post.valid_node_id(#[trigger] post.node_lookup_map()[key]@[j]) by {
            assert(pre.valid_node_id(pre.node_lookup_map()[key]@[j]));
        }
    }
    assert forall|j: int| 0 <= j < post.tested_seq().len() implies post.valid_node_id(
        #[trigger] post.tested_seq()[j],
    ) by {
        assert(pre.valid_node_id(pre.tested_seq()[j]));
    }
}

} // verus!
