//! A*: the open-set priority queue over the Fibonacci heap, and the
//! shortest-path search over the graph store.

use crate::fibonacci_heap::{DecreaseOutcome, FibonacciHeap, NodePtr};
use crate::graph::NodeManager;
use crate::ids::{EdgeId, NodeId};
use crate::math::{comp_bounded, dist_floor, dist_sq, sat_add, sqrt_floor, Vec2I};
use vstd::prelude::*;
use vstd::set_lib::set_int_range;

verus! {

/// Whether `path` is a chain of edges of `m` leading from the node `from`
/// to the node `to`: each edge starts where the previous one ended.
pub open spec fn path_connects(m: NodeManager, path: Seq<EdgeId>, from: NodeId, to: NodeId) -> bool
    decreases path.len(),
{
    if path.len() == 0 {
        from == to
    } else {
        let e = path[0];
        &&& m.valid_edge_id(e)
        &&& m.edge_at(e).has_endpoint(from)
        &&& path_connects(m, path.drop_first(), m.edge_at(e).spec_other_node(from), to)
    }
}

/// Traversal cost of an edge: the floor of the Euclidean distance between
/// its endpoints, divided by its speed.
pub open spec fn spec_edge_cost(m: NodeManager, e: EdgeId) -> int {
    let a = m.node_at(m.edge_at(e).spec_nodes().0).spec_pos();
    let b = m.node_at(m.edge_at(e).spec_nodes().1).spec_pos();
    sqrt_floor(dist_sq(a, b)) / (m.edge_at(e).spec_speed() as int)
}

/// When the open set is empty, everything a chain of edges can reach
/// from a settled node has been settled too: each hop leads to a scored
/// node, a scored unsettled node would still be queued, and nothing is.
proof fn lemma_paths_stay_settled(
    m: NodeManager,
    closed: Seq<bool>,
    g: Seq<Option<u64>>,
    open: AStarHeap,
    path: Seq<EdgeId>,
    from: NodeId,
    to: NodeId,
)
    requires
        m.wf(),
        closed.len() == m.nodes_seq().len(),
        g.len() == m.nodes_seq().len(),
        m.valid_node_id(from),
        closed[from.0 - 1],
        path_connects(m, path, from, to),
        forall|j: int| !open.present(j),
        forall|j: int|
            0 <= j < g.len() && (#[trigger] g[j]) is Some && !closed[j] ==> open.present(j),
        forall|c: int, t: int|
            0 <= c < closed.len() && closed[c] && 0 <= t < m.node_at(
                NodeId((c + 1) as u64),
            ).spec_edges().len() ==> {
                let e = #[trigger] m.node_at(NodeId((c + 1) as u64)).spec_edges()[t];
                g[m.edge_at(e).spec_other_node(NodeId((c + 1) as u64)).0 - 1] is Some
            },
    ensures
        m.valid_node_id(to),
        closed[to.0 - 1],
    decreases path.len(),
{
    if path.len() == 0 {
    } else {
        let e = path[0];
        let w = m.edge_at(e).spec_other_node(from);
        assert(m.edge_entry_wf(e.0 - 1));
        assert(m.edge_at(e).spec_id() == e) by {
            assert(m.edge_at(e).spec_id().0 == e.0);
        }
        assert(m.valid_node_id(w));
        assert(m.node_at(from).spec_edges().contains(e)) by {
            assert(m.edge_at(e).spec_nodes().0 == from || m.edge_at(e).spec_nodes().1 == from);
        }
        let t = choose|t: int|
            0 <= t < m.node_at(from).spec_edges().len() && m.node_at(from).spec_edges()[t] == e;
        assert(NodeId((from.0 - 1 + 1) as u64) == from);
        assert(g[w.0 - 1] is Some) by {
            assert(m.node_at(NodeId((from.0 - 1 + 1) as u64)).spec_edges()[t] == e);
        }
        assert(closed[w.0 - 1]) by {
            if !closed[w.0 - 1] {
                assert(open.present(w.0 - 1));
            }
        }
        lemma_paths_stay_settled(m, closed, g, open, path.drop_first(), w, to);
    }
}

/// A caller-supplied heuristic: an estimate of the remaining cost from
/// one position to another. The estimate is pinned to a specification
/// function of the two positions alone, so a caller can reason about the
/// values a search uses. A* returns minimum-cost paths when the estimate
/// never overestimates the true cost; the engine does not check
/// admissibility, and the search's own contract does not depend on it.
pub trait Heuristic {
    /// The estimate, as a mathematical function of the two positions.
    spec fn spec_estimate(&self, from: Vec2I, to: Vec2I) -> u64;

    fn estimate(&self, from: Vec2I, to: Vec2I) -> (r: u64)
        ensures
            r == self.spec_estimate(from, to),
    ;
}

/// The zero heuristic: A* degenerates to uniform-cost search.
pub struct ZeroHeuristic;

impl Heuristic for ZeroHeuristic {
    open spec fn spec_estimate(&self, from: Vec2I, to: Vec2I) -> u64 {
        0
    }

    fn estimate(&self, from: Vec2I, to: Vec2I) -> (r: u64) {
        0
    }
}

/// Euclidean distance divided by a top speed: admissible whenever no edge
/// is traversed faster than `top_speed`. Positions are clamped to the
/// range the distance arithmetic is exact for; a zero top speed is read
/// as one.
pub struct EuclidHeuristic {
    pub top_speed: u64,
}

/// A position component, pulled into the range the distance arithmetic
/// is exact for.
pub open spec fn spec_clamp_comp(v: i64) -> i64 {
    if v < -0x2000_0000 {
        -0x2000_0000i64
    } else if v > 0x2000_0000 {
        0x2000_0000i64
    } else {
        v
    }
}

fn clamp_comp(v: i64) -> (r: i64)
    ensures
        r == spec_clamp_comp(v),
{
    if v < -0x2000_0000 {
        -0x2000_0000
    } else if v > 0x2000_0000 {
        0x2000_0000
    } else {
        v
    }
}

impl Heuristic for EuclidHeuristic {
    open spec fn spec_estimate(&self, from: Vec2I, to: Vec2I) -> u64 {
        let f = Vec2I { x: spec_clamp_comp(from.x), y: spec_clamp_comp(from.y) };
        let t = Vec2I { x: spec_clamp_comp(to.x), y: spec_clamp_comp(to.y) };
        let div: int = if self.top_speed == 0 {
            1
        } else {
            self.top_speed as int
        };
        (sqrt_floor(dist_sq(f, t)) / div) as u64
    }

    fn estimate(&self, from: Vec2I, to: Vec2I) -> (r: u64) {
        let f = Vec2I { x: clamp_comp(from.x), y: clamp_comp(from.y) };
        let t = Vec2I { x: clamp_comp(to.x), y: clamp_comp(to.y) };
        let d = dist_floor(f, t);
        let div = if self.top_speed == 0 {
            1
        } else {
            self.top_speed
        };
        d / div
    }
}

/// The open set of an A* search: a priority queue of candidate nodes
/// keyed by estimated total cost. Each node is held at most once; a
/// cheaper estimate lowers its key in place, and a node that has already
/// been extracted is never re-entered.
pub struct AStarHeap {
    heap: FibonacciHeap<u64>,
    handles: Vec<Option<NodePtr>>,
}

impl AStarHeap {
    /// How many nodes the open set can track: node ids `1..=capacity()`.
    pub closed spec fn capacity(self) -> int {
        self.handles@.len() as int
    }

    /// Whether the node at index `node` has ever been inserted.
    pub closed spec fn tried(self, node: int) -> bool {
        0 <= node < self.capacity() && self.handles@[node] is Some
    }

    /// Whether the node at index `node` is currently queued.
    pub closed spec fn present(self, node: int) -> bool {
        self.tried(node) && self.heap.handle_live(self.handles@[node].unwrap())
    }

    /// The key of a queued node.
    pub closed spec fn key_at(self, node: int) -> u64 {
        self.heap.key_of(self.handles@[node].unwrap().idx as int)
    }

    /// The queued key of a node, if it is queued.
    pub open spec fn entry(self, node: int) -> Option<u64> {
        if self.present(node) {
            Some(self.key_at(node))
        } else {
            None
        }
    }

    /// How many nodes are queued.
    pub closed spec fn size(self) -> int {
        self.heap.live().dom().len() as int
    }

    pub closed spec fn wf(self) -> bool {
        &&& self.heap.wf()
        &&& self.capacity() < 0xFFFF_FFFF
        &&& forall|s: int|
            0 <= s < self.heap.slots() ==> {
                let v = #[trigger] self.heap.val_of(s);
                &&& 1 <= v <= self.capacity()
                &&& self.handles@[v - 1] is Some
                &&& self.handles@[v - 1].unwrap().idx == s
            }
        &&& forall|node: int|
            0 <= node < self.capacity() && (#[trigger] self.handles@[node]) is Some ==> {
                let h = self.handles@[node].unwrap();
                &&& 0 <= h.idx < self.heap.slots()
                &&& self.heap.owns(h)
                &&& self.heap.val_of(h.idx as int) == node + 1
            }
    }

    /// Every heap slot carries a distinct node, so there are never more
    /// slots than nodes.
    proof fn lemma_slots_bounded(self)
        requires
            self.wf(),
        ensures
            self.heap.slots() <= self.capacity(),
    {
        let m = self.heap.slots();
        self.heap.lemma_slots_nonneg();
        let ids = Seq::new(m as nat, |s: int| self.heap.val_of(s) - 1);
        assert(m >= 0);
        assert(ids.len() == m);
        assert forall|s1: int, s2: int|
            0 <= s1 < m && 0 <= s2 < m && s1 != s2 implies ids[s1] != ids[s2] by {
            assert(ids[s1] == self.heap.val_of(s1) - 1);
            assert(ids[s2] == self.heap.val_of(s2) - 1);
            if ids[s1] == ids[s2] {
                let v = self.heap.val_of(s1);
                assert(1 <= v <= self.capacity());
                assert(self.handles@[v - 1].unwrap().idx == s1);
                assert(self.handles@[self.heap.val_of(s2) - 1].unwrap().idx == s2);
            }
        }
        assert(ids.no_duplicates());
        ids.unique_seq_to_set();
        let bounded = set_int_range(0, self.capacity());
        vstd::set_lib::lemma_int_range(0, self.capacity());
        assert forall|x: int| ids.to_set().contains(x) implies bounded.contains(x) by {
            let s = choose|s: int| 0 <= s < ids.len() && ids[s] == x;
            assert(0 <= s < self.heap.slots());
            assert(ids[s] == self.heap.val_of(s) - 1);
            assert(1 <= self.heap.val_of(s) <= self.capacity());
        }
        assert(ids.to_set() <= bounded);
        vstd::set_lib::lemma_len_subset(ids.to_set(), bounded);
    }

    /// An empty open set for nodes `1..=capacity`.
    pub fn new(capacity: usize) -> (r: AStarHeap)
        requires
            capacity < 0xFFFF_FFFF,
        ensures
            r.wf(),
            r.capacity() == capacity,
            forall|node: int| !r.tried(node),
            forall|node: int| r.entry(node) is None,
            r.size() == 0,
    {
        let mut handles: Vec<Option<NodePtr>> = Vec::new();
        let mut i: usize = 0;
        while i < capacity
            invariant
                i <= capacity,
                handles@.len() == i,
                forall|j: int| 0 <= j < i ==> (#[trigger] handles@[j]) is None,
            decreases capacity - i,
        {
            handles.push(None);
            i = i + 1;
        }
        let r = AStarHeap { heap: FibonacciHeap::new(), handles };
        proof {
            assert(r.heap.live().dom() =~= Set::<int>::empty());
        }
        r
    }

    /// Queue `node` at key `weight`, or lower its key to `weight` if it
    /// is already queued at a higher one. A node that was queued and has
    /// since been extracted is left alone.
    pub fn push(&mut self, node: NodeId, weight: u64)
        requires
            old(self).wf(),
            1 <= node.0 <= old(self).capacity(),
        ensures
            final(self).wf(),
            final(self).capacity() == old(self).capacity(),
            final(self).tried((node.0 - 1) as int),
            ({
                let idx = (node.0 - 1) as int;
                &&& (!old(self).tried(idx) ==> final(self).entry(idx) == Some(weight))
                &&& (old(self).present(idx) ==> final(self).entry(idx) == Some(
                    if old(self).key_at(idx) <= weight {
                        old(self).key_at(idx)
                    } else {
                        weight
                    },
                ))
                &&& (old(self).tried(idx) && !old(self).present(idx) ==> final(self).entry(idx)
                    is None)
            }),
            forall|o: int|
                o != node.0 - 1 ==> final(self).entry(o) == old(self).entry(o) && final(self).tried(o) == old(self).tried(o),
            final(self).size() <= old(self).size() + 1,
    {
        let idx = (node.0 - 1) as usize;
        let ghost pre = *self;
        match self.handles[idx] {
            Some(h) => {
                proof {
                    assert(pre.heap.owns(h));
                }
                let outcome = self.heap.decrease_key(&h, weight);
                proof {
                    let post = *self;
                    assert forall|s: int| 0 <= s < post.heap.slots() implies {
                        let v = #[trigger] post.heap.val_of(s);
                        &&& 1 <= v <= post.capacity()
                        &&& post.handles@[v - 1] is Some
                        &&& post.handles@[v - 1].unwrap().idx == s
                    } by {
                        assert(pre.heap.val_of(s) == post.heap.val_of(s));
                    }
                    match outcome {
                        DecreaseOutcome::Decreased => {
                            assert(post.heap.live() == pre.heap.live().insert(
                                h.idx as int,
                                (weight, pre.heap.val_of(h.idx as int)),
                            ));
                            assert(post.heap.live().dom() =~= pre.heap.live().dom());
                        },
                        DecreaseOutcome::WouldIncrease => {},
                        DecreaseOutcome::Stale => {},
                    }
                    assert forall|o: int| o != node.0 - 1 implies final(self).entry(o) == pre
                        .entry(o) && final(self).tried(o) == pre.tried(o) by {
                        if pre.present(o) {
                            let ho = pre.handles@[o].unwrap();
                            assert(ho.idx != h.idx) by {
                                if ho.idx == h.idx {
                                    assert(pre.heap.val_of(ho.idx as int) == o + 1);
                                    assert(pre.heap.val_of(h.idx as int) == node.0 - 1 + 1);
                                }
                            }
                        }
                    }
                }
            },
            None => {
                proof {
                    pre.lemma_slots_bounded();
                }
                let h2 = self.heap.push(weight, node.0);
                self.handles[idx] = Some(h2);
                proof {
                    let post = *self;
                    assert(post.handles@ == pre.handles@.update(idx as int, Some(h2)));
                    assert forall|s: int| 0 <= s < post.heap.slots() implies {
                        let v = #[trigger] post.heap.val_of(s);
                        &&& 1 <= v <= post.capacity()
                        &&& post.handles@[v - 1] is Some
                        &&& post.handles@[v - 1].unwrap().idx == s
                    } by {
                        if s < pre.heap.slots() {
                            assert(pre.heap.val_of(s) == post.heap.val_of(s));
                            let v = pre.heap.val_of(s);
                            assert(pre.handles@[v - 1] is Some);
                            assert(v - 1 != idx);
                        } else {
                            assert(s == h2.idx);
                            assert(post.heap.handle_live(h2));
                            assert(post.heap.live().contains_key(s));
                            assert(post.heap.live()[s] == (weight, node.0));
                            assert(post.heap.val_of(s) == node.0);
                        }
                    }
                    assert(post.heap.live()[h2.idx as int] == (weight, node.0));
                    assert(post.heap.key_of(h2.idx as int) == weight);
                    assert(post.present(idx as int));
                    assert(post.entry(idx as int) == Some(weight));
                    assert forall|nd: int|
                        0 <= nd < post.capacity() && (#[trigger] post.handles@[nd]) is Some
                            implies {
                        let hh = post.handles@[nd].unwrap();
                        &&& 0 <= hh.idx < post.heap.slots()
                        &&& post.heap.owns(hh)
                        &&& post.heap.val_of(hh.idx as int) == nd + 1
                    } by {
                        if nd != idx {
                            assert(pre.handles@[nd] is Some);
                            let hh = pre.handles@[nd].unwrap();
                            assert(pre.heap.owns(hh) && pre.heap.val_of(hh.idx as int) == nd + 1);
                        }
                    }
                    assert(post.heap.live().dom() =~= pre.heap.live().dom().insert(
                        h2.idx as int,
                    ));
                    assert(!pre.heap.live().dom().contains(h2.idx as int));
                    pre.heap.lemma_live_dom_finite();
                    assert forall|o: int| o != node.0 - 1 implies final(self).entry(o) == pre
                        .entry(o) && final(self).tried(o) == pre.tried(o) by {
                        if pre.present(o) {
                            let ho = pre.handles@[o].unwrap();
                            assert(pre.heap.owns(ho));
                            assert(post.heap.alive(ho.idx as int) == pre.heap.alive(
                                ho.idx as int,
                            ));
                        }
                    }
                }
            },
        }
    }

    /// Extract a queued node with the smallest key; `None` when the set
    /// is empty.
    pub fn pop(&mut self) -> (r: Option<NodeId>)
        requires
            old(self).wf(),
        ensures
            final(self).wf(),
            final(self).capacity() == old(self).capacity(),
            match r {
                None => {
                    &&& forall|node: int| !old(self).present(node)
                    &&& forall|node: int|
                        final(self).entry(node) == old(self).entry(node) && final(self).tried(
                            node,
                        ) == old(self).tried(node)
                    &&& final(self).size() == old(self).size()
                },
                Some(id) => {
                    let idx = (id.0 - 1) as int;
                    &&& 1 <= id.0 <= old(self).capacity()
                    &&& old(self).present(idx)
                    &&& !final(self).present(idx)
                    &&& final(self).tried(idx)
                    &&& forall|o: int|
                        o != idx ==> final(self).entry(o) == old(self).entry(o) && final(self).tried(o) == old(self).tried(o)
                    &&& forall|o: int|
                        old(self).present(o) ==> old(self).key_at(idx) <= old(self).key_at(o)
                    &&& final(self).size() == old(self).size() - 1
                },
            },
    {
        let ghost pre = *self;
        let popped = self.heap.pop();
        match popped {
            None => {
                proof {
                    let post = *self;
                    assert forall|node: int| !pre.present(node) by {
                        if pre.present(node) {
                            let h = pre.handles@[node].unwrap();
                            assert(pre.heap.live().contains_key(h.idx as int));
                        }
                    }
                    assert forall|s: int| 0 <= s < post.heap.slots() implies {
                        let vv = #[trigger] post.heap.val_of(s);
                        &&& 1 <= vv <= post.capacity()
                        &&& post.handles@[vv - 1] is Some
                        &&& post.handles@[vv - 1].unwrap().idx == s
                    } by {
                        assert(pre.heap.val_of(s) == post.heap.val_of(s));
                    }
                    assert forall|node: int| post.entry(node) == pre.entry(node) && post.tried(
                        node,
                    ) == pre.tried(node) by {
                        if 0 <= node < pre.capacity() && pre.handles@[node] is Some {
                            let ho = pre.handles@[node].unwrap();
                            if pre.heap.alive(ho.idx as int) {
                                assert(pre.heap.live().contains_key(ho.idx as int));
                                assert(post.heap.live().contains_key(ho.idx as int));
                                assert(post.heap.alive(ho.idx as int));
                            } else {
                                if post.heap.alive(ho.idx as int) {
                                    assert(post.heap.live().contains_key(ho.idx as int));
                                    assert(pre.heap.live().contains_key(ho.idx as int));
                                }
                            }
                        }
                    }
                }
                None
            },
            Some((k, v)) => {
                proof {
                    let post = *self;
                    let m = choose|m: int|
                        {
                            &&& pre.heap.alive(m)
                            &&& k == pre.heap.key_of(m)
                            &&& v == pre.heap.val_of(m)
                            &&& post.heap.live() == pre.heap.live().remove(m)
                            &&& !post.heap.alive(m)
                        };
                    pre.heap.lemma_alive_bounds(m);
                    assert(1 <= v <= pre.capacity());
                    assert(pre.handles@[v - 1] is Some && pre.handles@[v - 1].unwrap().idx == m);
                    let idx = v - 1;
                    assert(pre.present(idx));
                    assert forall|s: int| 0 <= s < post.heap.slots() implies {
                        let vv = #[trigger] post.heap.val_of(s);
                        &&& 1 <= vv <= post.capacity()
                        &&& post.handles@[vv - 1] is Some
                        &&& post.handles@[vv - 1].unwrap().idx == s
                    } by {
                        assert(pre.heap.val_of(s) == post.heap.val_of(s));
                    }
                    assert(!post.heap.alive(m)) by {
                        assert(!post.heap.live().contains_key(m));
                    }
                    assert(!post.present(idx));
                    assert forall|o: int| o != idx implies post.entry(o) == pre.entry(o) && post
                        .tried(o) == pre.tried(o) by {
                        if pre.handles@[o] is Some && 0 <= o < pre.capacity() {
                            let ho = pre.handles@[o].unwrap();
                            assert(ho.idx != m) by {
                                if ho.idx == m {
                                    assert(pre.heap.val_of(m) == o + 1);
                                }
                            }
                            assert(post.heap.alive(ho.idx as int) == pre.heap.live().remove(
                                m,
                            ).contains_key(ho.idx as int) || !post.heap.alive(ho.idx as int));
                            if pre.heap.alive(ho.idx as int) {
                                assert(pre.heap.live().contains_key(ho.idx as int));
                                assert(post.heap.live().contains_key(ho.idx as int));
                                assert(post.heap.alive(ho.idx as int));
                            } else {
                                if post.heap.alive(ho.idx as int) {
                                    assert(post.heap.live().contains_key(ho.idx as int));
                                    assert(pre.heap.live().contains_key(ho.idx as int));
                                }
                            }
                        }
                    }
                    assert forall|o: int| pre.present(o) implies pre.key_at(idx) <= pre.key_at(
                        o,
                    ) by {
                        let ho = pre.handles@[o].unwrap();
                        assert(pre.heap.alive(ho.idx as int));
                    }
                    assert(pre.heap.live().dom().contains(m));
                    pre.heap.lemma_live_dom_finite();
                    assert(post.heap.live().dom() =~= pre.heap.live().dom().remove(m));
                }
                let id = NodeId(v);
                Some(id)
            },
        }
    }
}

impl NodeManager {
    /// The traversal cost of an edge, exactly [`spec_edge_cost`].
    pub fn edge_cost(&self, e: EdgeId) -> (r: u64)
        requires
            self.wf(),
            self.valid_edge_id(e),
        ensures
            r == spec_edge_cost(*self, e),
    {
        proof {
            assert(self.edge_entry_wf(e.0 - 1));
            assert(self.edge_at(e).spec_id() == e) by {
                assert(self.edge_at(e).spec_id().0 == e.0);
            }
            assert(self.node_entry_wf(self.edge_at(e).spec_nodes().0.0 - 1));
            assert(self.node_entry_wf(self.edge_at(e).spec_nodes().1.0 - 1));
            assert(self.spec_cfg().world_limit() <= 0x10_0000);
        }
        let edge = self.get_edge(e).unwrap();
        let (na, nb) = edge.get_nodes();
        let a = self.get_node_pos(na).unwrap();
        let b = self.get_node_pos(nb).unwrap();
        let d = dist_floor(a, b);
        d / edge.get_speed()
    }

    /// Walk the predecessor map back from `goal` to `start`, resolving
    /// each hop to the connecting edge, and return the edges in
    /// start-to-goal order.
    fn reconstruct_path(
        &self,
        came_from: &Vec<Option<NodeId>>,
        start: NodeId,
        goal: NodeId,
        Ghost(closed): Ghost<Seq<bool>>,
        Ghost(rank): Ghost<Map<int, int>>,
        Ghost(bound): Ghost<int>,
        Ghost(explored): Ghost<Seq<EdgeId>>,
    ) -> (r: Vec<EdgeId>)
        requires
            self.wf(),
            self.valid_node_id(start),
            self.valid_node_id(goal),
            came_from@.len() == self.nodes_seq().len(),
            closed.len() == self.nodes_seq().len(),
            bound >= 0,
            came_from@[start.0 - 1] is None,
            goal != start ==> came_from@[goal.0 - 1] is Some,
            forall|j: int|
                0 <= j < closed.len() && (#[trigger] closed[j]) ==> rank.contains_key(j) && 0
                    <= rank[j] < bound,
            forall|j: int|
                0 <= j < came_from@.len() && (#[trigger] came_from@[j]) is Some ==> {
                    let c = came_from@[j].unwrap();
                    &&& self.valid_node_id(c)
                    &&& closed[c.0 - 1]
                    &&& (closed[j] ==> rank[c.0 - 1] < rank[j])
                    &&& exists|e: EdgeId|
                        self.valid_edge_id(e) && self.edge_at(e).has_endpoint(
                            NodeId((j + 1) as u64),
                        ) && (#[trigger] self.edge_at(e).spec_other_node(NodeId((j + 1) as u64)))
                            == c
                },
            forall|j: int|
                0 <= j < closed.len() && closed[j] && j != start.0 - 1 ==> (
                #[trigger] came_from@[j]) is Some,
            forall|c: int, t: int|
                0 <= c < closed.len() && closed[c] && 0 <= t < self.node_at(
                    NodeId((c + 1) as u64),
                ).spec_edges().len() ==> explored.contains(
                    #[trigger] self.node_at(NodeId((c + 1) as u64)).spec_edges()[t],
                ),
        ensures
            path_connects(*self, r@, start, goal),
            forall|t: int| 0 <= t < r@.len() ==> self.valid_edge_id(#[trigger] r@[t]),
            forall|t: int| 0 <= t < r@.len() ==> explored.contains(#[trigger] r@[t]),
            came_from@[goal.0 - 1] is None ==> r@.len() == 0,
    {
        let n_nodes = came_from.len();
        let mut rev: Vec<EdgeId> = Vec::new();
        let mut cur = goal;
        loop
            invariant
                self.wf(),
                self.valid_node_id(start),
                self.valid_node_id(goal),
                self.valid_node_id(cur),
                n_nodes == came_from@.len(),
                came_from@.len() == self.nodes_seq().len(),
                closed.len() == self.nodes_seq().len(),
                bound >= 0,
                came_from@[start.0 - 1] is None,
                cur == goal || closed[cur.0 - 1],
                forall|j: int|
                    0 <= j < closed.len() && (#[trigger] closed[j]) ==> rank.contains_key(j) && 0
                        <= rank[j] < bound,
                forall|j: int|
                    0 <= j < came_from@.len() && (#[trigger] came_from@[j]) is Some ==> {
                        let c = came_from@[j].unwrap();
                        &&& self.valid_node_id(c)
                        &&& closed[c.0 - 1]
                        &&& (closed[j] ==> rank[c.0 - 1] < rank[j])
                        &&& exists|e: EdgeId|
                            self.valid_edge_id(e) && self.edge_at(e).has_endpoint(
                                NodeId((j + 1) as u64),
                            ) && (#[trigger] self.edge_at(e).spec_other_node(
                                NodeId((j + 1) as u64),
                            )) == c
                    },
                forall|j: int|
                    0 <= j < closed.len() && closed[j] && j != start.0 - 1 ==> (
                    #[trigger] came_from@[j]) is Some,
                forall|c: int, t: int|
                    0 <= c < closed.len() && closed[c] && 0 <= t < self.node_at(
                        NodeId((c + 1) as u64),
                    ).spec_edges().len() ==> explored.contains(
                        #[trigger] self.node_at(NodeId((c + 1) as u64)).spec_edges()[t],
                    ),
                path_connects(*self, rev@.reverse(), cur, goal),
                forall|t: int| 0 <= t < rev@.len() ==> self.valid_edge_id(#[trigger] rev@[t]),
                forall|t: int| 0 <= t < rev@.len() ==> explored.contains(#[trigger] rev@[t]),
                (rev@.len() == 0 && cur == goal) || came_from@[goal.0 - 1] is Some,
            ensures
                came_from@[cur.0 - 1] is None,
            decreases (if closed[cur.0 - 1] {
                rank[cur.0 - 1]
            } else {
                bound
            }),
        {
            let cidx = (cur.0 - 1) as usize;
            let cf = came_from[cidx];
            match cf {
                None => {
                    break ;
                },
                Some(c) => {
                    let ghost e0 = choose|e: EdgeId|
                        self.valid_edge_id(e) && self.edge_at(e).has_endpoint(
                            NodeId((cur.0 - 1 + 1) as u64),
                        ) && (#[trigger] self.edge_at(e).spec_other_node(
                            NodeId((cur.0 - 1 + 1) as u64),
                        )) == c;
                    proof {
                        assert(came_from@[cur.0 - 1] is Some);
                        assert(self.valid_node_id(c));
                        assert(NodeId((cur.0 - 1 + 1) as u64) == cur);
                        assert(self.valid_edge_id(e0) && self.edge_at(e0).has_endpoint(cur)
                            && self.edge_at(e0).spec_other_node(cur) == c);
                        assert(self.edge_entry_wf(e0.0 - 1));
                        assert(self.edge_at(e0).spec_id() == e0) by {
                            assert(self.edge_at(e0).spec_id().0 == e0.0);
                        }
                        assert(self.node_entry_wf(cur.0 - 1));
                        assert(self.node_at(cur).spec_id() == cur) by {
                            assert(self.node_at(cur).spec_id().0 == cur.0);
                        }
                        assert(self.node_at(cur).spec_edges().contains(e0)) by {
                            assert(self.edge_at(e0).spec_nodes().0 == cur || self.edge_at(
                                e0,
                            ).spec_nodes().1 == cur);
                        }
                    }
                    let node = self.get_node(cur).unwrap();
                    let found = node.find_edge(c, self);
                    proof {
                        if found is None {
                            let w = choose|w: int|
                                0 <= w < node.spec_edges().len() && node.spec_edges()[w] == e0;
                            assert(self.edge_at(node.spec_edges()[w]).spec_other_node(
                                node.spec_id(),
                            ) != c);
                            assert(false);
                        }
                    }
                    let e = found.unwrap();
                    let ghost old_rev = rev@;
                    let ghost old_cur = cur;
                    rev.push(e);
                    cur = c;
                    proof {
                        // The extended reversed path still chains to the goal.
                        assert(rev@ == old_rev.push(e));
                        assert(rev@.reverse() =~= seq![e] + old_rev.reverse()) by {
                            assert forall|i: int| 0 <= i < rev@.len() implies rev@.reverse()[i] == (
                            seq![e] + old_rev.reverse())[i] by {
                                if i == 0 {
                                    assert(rev@.reverse()[0] == rev@[rev@.len() - 1]);
                                } else {
                                    assert(rev@.reverse()[i] == rev@[rev@.len() - 1 - i]);
                                    assert(old_rev.reverse()[i - 1] == old_rev[old_rev.len() - 1 - (
                                    i - 1)]);
                                }
                            }
                        }
                        let edge = self.edge_at(e);
                        assert(edge.spec_nodes().0 != edge.spec_nodes().1) by {
                            assert(self.edge_entry_wf(e.0 - 1));
                        }
                        assert(edge.has_endpoint(old_cur) && edge.spec_other_node(old_cur) == c);
                        assert(edge.has_endpoint(c) && edge.spec_other_node(c) == old_cur);
                        // The hop's edge is incident to the settled
                        // predecessor, whose expansion examined it.
                        assert(explored.contains(e)) by {
                            assert(self.edge_entry_wf(e.0 - 1));
                            assert(self.edge_at(e).spec_id() == e) by {
                                assert(self.edge_at(e).spec_id().0 == e.0);
                            }
                            assert(self.node_at(c).spec_edges().contains(e)) by {
                                assert(edge.spec_nodes().0 == c || edge.spec_nodes().1 == c);
                            }
                            let w = choose|w: int|
                                0 <= w < self.node_at(c).spec_edges().len() && self.node_at(
                                    c,
                                ).spec_edges()[w] == e;
                            assert(closed[c.0 - 1]);
                            assert(NodeId((c.0 - 1 + 1) as u64) == c);
                            assert(explored.contains(
                                self.node_at(NodeId((c.0 - 1 + 1) as u64)).spec_edges()[w],
                            ));
                        }
                        assert((seq![e] + old_rev.reverse()).drop_first() =~= old_rev.reverse());
                        assert(path_connects(*self, rev@.reverse(), c, goal));
                        assert(came_from@[old_cur.0 - 1] is Some && came_from@[old_cur.0
                            - 1].unwrap() == c);
                        assert(closed[c.0 - 1]);
                        if closed[old_cur.0 - 1] {
                            assert(rank[c.0 - 1] < rank[old_cur.0 - 1]);
                        } else {
                            assert(rank[c.0 - 1] < bound);
                        }
                    }
                },
            }
        }
        proof {
            assert(came_from@[cur.0 - 1] is None);
            if cur != start {
                assert(cur == goal || closed[cur.0 - 1]);
                if cur == goal {
                    assert(came_from@[goal.0 - 1] is None);
                    assert(goal == start);
                    assert(false);
                } else {
                    assert(closed[cur.0 - 1]);
                    assert(came_from@[cur.0 - 1] is Some);
                    assert(false);
                }
            }
            assert(cur == start);
        }
        // Reverse into start-to-goal order.
        let mut out: Vec<EdgeId> = Vec::new();
        let mut t = rev.len();
        while t > 0
            invariant
                t <= rev@.len(),
                out@.len() == rev@.len() - t,
                forall|u: int| 0 <= u < out@.len() ==> out@[u] == rev@[rev@.len() - 1 - u],
            decreases t,
        {
            t = t - 1;
            out.push(rev[t]);
        }
        proof {
            assert(out@ =~= rev@.reverse());
            assert forall|u: int| 0 <= u < out@.len() implies explored.contains(
                #[trigger] out@[u],
            ) by {
                assert(out@[u] == rev@[rev@.len() - 1 - u]);
            }
        }
        out
    }

    /// A* shortest-path search from `start` to `goal` under the heuristic
    /// `h`. Returns the path as a start-to-goal edge sequence when the
    /// goal is reached, or `None` when the open set runs dry, together
    /// with every edge examined during the search. Searching from a node
    /// to itself yields the empty path and examines nothing.
    pub fn a_star<H: Heuristic>(&self, start: NodeId, goal: NodeId, h: &H) -> (r: (
        Option<Vec<EdgeId>>,
        Vec<EdgeId>,
    ))
        requires
            self.wf(),
            self.valid_node_id(start),
            self.valid_node_id(goal),
            self.nodes_seq().len() < 0xFFFF_FFFF,
        ensures
            forall|t: int| 0 <= t < r.1@.len() ==> self.valid_edge_id(#[trigger] r.1@[t]),
            r.0 is Some ==> path_connects(*self, r.0.unwrap()@, start, goal) && (forall|t: int|
                0 <= t < r.0.unwrap()@.len() ==> self.valid_edge_id(#[trigger] r.0.unwrap()@[t]))
                && (forall|t: int|
                0 <= t < r.0.unwrap()@.len() ==> r.1@.contains(#[trigger] r.0.unwrap()@[t])),
            r.0 is None ==> forall|path: Seq<EdgeId>| !path_connects(*self, path, start, goal),
            start == goal ==> r.0 is Some && r.0.unwrap()@.len() == 0 && r.1@.len() == 0,
    {
        let n = self.get_nodes().len();
        let goal_pos = self.get_node_pos(goal).unwrap();
        let start_pos = self.get_node_pos(start).unwrap();
        let mut open_set = AStarHeap::new(n);
        let mut g_score: Vec<Option<u64>> = Vec::new();
        let mut came_from: Vec<Option<NodeId>> = Vec::new();
        let mut closed: Vec<bool> = Vec::new();
        let mut i: usize = 0;
        while i < n
            invariant
                i <= n,
                g_score@.len() == i,
                came_from@.len() == i,
                closed@.len() == i,
                forall|j: int| 0 <= j < i ==> (#[trigger] g_score@[j]) is None,
                forall|j: int| 0 <= j < i ==> (#[trigger] came_from@[j]) is None,
                forall|j: int| 0 <= j < i ==> !(#[trigger] closed@[j]),
            decreases n - i,
        {
            g_score.push(None);
            came_from.push(None);
            closed.push(false);
            i = i + 1;
        }
        let sidx = (start.0 - 1) as usize;
        g_score[sidx] = Some(0);
        open_set.push(start, h.estimate(start_pos, goal_pos));
        let mut explored: Vec<EdgeId> = Vec::new();
        let mut neighbours: Vec<(NodeId, EdgeId)> = Vec::new();
        let mut closed_count: usize = 0;
        let ghost mut closedset: Set<int> = Set::empty();
        let ghost mut rank: Map<int, int> = Map::empty();
        proof {
            vstd::set_lib::lemma_int_range(0, n as int);
            assert(closedset =~= Set::<int>::empty());
            assert(closedset.len() == 0);
            assert(closedset.subset_of(set_int_range(0, n as int)));
        }
        loop
            invariant
                self.wf(),
                self.valid_node_id(start),
                self.valid_node_id(goal),
                n == self.nodes_seq().len(),
                n < 0xFFFF_FFFF,
                sidx == start.0 - 1,
                open_set.wf(),
                open_set.capacity() == n,
                g_score@.len() == n,
                came_from@.len() == n,
                closed@.len() == n,
                forall|j: int| 0 <= j < n ==> ((#[trigger] closed@[j]) <==> closedset.contains(j)),
                closedset.finite(),
                closedset.subset_of(set_int_range(0, n as int)),
                closed_count == closedset.len(),
                closed_count <= n,
                g_score@[sidx as int] == Some(0u64),
                came_from@[sidx as int] is None,
                forall|j: int|
                    open_set.present(j) ==> 0 <= j < n && (#[trigger] g_score@[j]) is Some
                        && !closed@[j] && (j != sidx ==> came_from@[j] is Some),
                forall|j: int|
                    0 <= j < n && (#[trigger] came_from@[j]) is Some ==> {
                        let c = came_from@[j].unwrap();
                        &&& self.valid_node_id(c)
                        &&& closed@[c.0 - 1]
                        &&& (closed@[j] ==> rank[c.0 - 1] < rank[j])
                        &&& exists|e: EdgeId|
                            self.valid_edge_id(e) && self.edge_at(e).has_endpoint(
                                NodeId((j + 1) as u64),
                            ) && (#[trigger] self.edge_at(e).spec_other_node(
                                NodeId((j + 1) as u64),
                            )) == c
                    },
                forall|j: int|
                    0 <= j < n && (#[trigger] closed@[j]) ==> rank.contains_key(j) && 0 <= rank[j]
                        < closed_count,
                forall|j: int| 0 <= j < n && closed@[j] && j != sidx ==> (#[trigger] came_from@[j]) is Some,
                forall|t: int| 0 <= t < explored@.len() ==> self.valid_edge_id(#[trigger] explored@[t]),
                forall|c: int, t: int|
                    0 <= c < n && closed@[c] && 0 <= t < self.node_at(
                        NodeId((c + 1) as u64),
                    ).spec_edges().len() ==> explored@.contains(
                        #[trigger] self.node_at(NodeId((c + 1) as u64)).spec_edges()[t],
                    ),
                forall|j: int| 0 <= j < n && closed@[j] ==> (#[trigger] g_score@[j]) is Some,
                forall|j: int|
                    0 <= j < n && (#[trigger] g_score@[j]) is Some && !closed@[j]
                        ==> open_set.present(j),
                forall|j: int| open_set.tried(j) && !open_set.present(j) ==> closed@[j],
                forall|c: int, t: int|
                    0 <= c < n && closed@[c] && 0 <= t < self.node_at(
                        NodeId((c + 1) as u64),
                    ).spec_edges().len() ==> {
                        let e = #[trigger] self.node_at(NodeId((c + 1) as u64)).spec_edges()[t];
                        g_score@[self.edge_at(e).spec_other_node(NodeId((c + 1) as u64)).0
                            - 1] is Some
                    },
                !closed@[goal.0 - 1],
                closed@[sidx as int] || open_set.present(sidx as int),
                start == goal ==> explored@.len() == 0 && open_set.present(sidx as int) && !closed@[
                    sidx as int
                ] && (forall|j: int| open_set.present(j) ==> j == sidx),
            decreases n - closed_count, open_set.size(),
        {
            let ghost pre_open = open_set;
            let popped = open_set.pop();
            match popped {
                None => {
                    proof {
                        if start == goal {
                            assert(open_set.present(sidx as int));
                        }
                        assert forall|path: Seq<EdgeId>|
                            !path_connects(*self, path, start, goal) by {
                            if path_connects(*self, path, start, goal) {
                                assert(closed@[sidx as int]) by {
                                    if !closed@[sidx as int] {
                                        assert(pre_open.present(sidx as int));
                                    }
                                }
                                lemma_paths_stay_settled(
                                    *self,
                                    closed@,
                                    g_score@,
                                    pre_open,
                                    path,
                                    start,
                                    goal,
                                );
                                assert(closed@[goal.0 - 1]);
                            }
                        }
                    }
                    return (None, explored);
                },
                Some(current) => {
                    let cidx = (current.0 - 1) as usize;
                    if current.0 == goal.0 {
                        proof {
                            assert(current == goal);
                            if start == goal {
                                assert(explored@.len() == 0);
                            }
                            if goal != start {
                                assert(goal.0 - 1 != sidx);
                                assert(pre_open.present(goal.0 - 1));
                                assert(0 <= goal.0 - 1 < n && g_score@[goal.0 - 1] is Some
                                    && !closed@[goal.0 - 1] && (goal.0 - 1 != sidx
                                    ==> came_from@[goal.0 - 1] is Some));
                                assert(came_from@[goal.0 - 1] is Some);
                            }
                        }
                        let path = self.reconstruct_path(
                            &came_from,
                            start,
                            goal,
                            Ghost(closed@),
                            Ghost(rank),
                            Ghost(closed_count as int),
                            Ghost(explored@),
                        );
                        return (Some(path), explored);
                    }
                    if closed[cidx] {
                        proof {
                            if start == goal {
                                assert(current.0 - 1 == sidx);
                            }
                        }
                        continue ;
                    }
                    proof {
                        if start == goal {
                            assert(current.0 - 1 == sidx);
                            assert(current.0 == goal.0);
                        }
                    }
                    let ghost pre_closedset = closedset;
                    closed[cidx] = true;
                    proof {
                        closedset = closedset.insert(cidx as int);
                        rank = rank.insert(cidx as int, closed_count as int);
                        assert(!pre_closedset.contains(cidx as int));
                        assert(closedset.len() == pre_closedset.len() + 1);
                        assert(closedset.subset_of(set_int_range(0, n as int)));
                        vstd::set_lib::lemma_int_range(0, n as int);
                        vstd::set_lib::lemma_len_subset(closedset, set_int_range(0, n as int));
                    }
                    closed_count = closed_count + 1;
                    let node = self.get_node(current).unwrap();
                    proof {
                        assert(self.node_entry_wf(current.0 - 1));
                        assert(self.node_at(current).spec_id() == current) by {
                            assert(self.node_at(current).spec_id().0 == current.0);
                        }
                    }
                    node.get_neighbours(self, &mut neighbours);
                    proof {
                        assert(start != goal);
                        assert forall|t: int| 0 <= t < neighbours@.len() implies {
                            let (nb, eid) = #[trigger] neighbours@[t];
                            &&& self.valid_edge_id(eid)
                            &&& self.edge_at(eid).has_endpoint(current)
                            &&& self.edge_at(eid).spec_other_node(current) == nb
                            &&& self.valid_node_id(nb)
                            &&& eid == self.node_at(current).spec_edges()[t]
                        } by {
                            assert(self.node_entry_wf(current.0 - 1));
                            let nd = self.node_at(current);
                            assert(neighbours@[t] == (
                                self.edge_at(nd.spec_edges()[t]).spec_other_node(current),
                                nd.spec_edges()[t],
                            ));
                            let eid = nd.spec_edges()[t];
                            assert(self.valid_edge_id(eid));
                            assert(self.edge_entry_wf(eid.0 - 1));
                        }
                    }
                    let g_current = g_score[cidx].unwrap();
                    let cur_pos = node.get_pos();
                    let mut j: usize = 0;
                    while j < neighbours.len()
                        invariant
                            self.wf(),
                            self.valid_node_id(start),
                            self.valid_node_id(goal),
                            n == self.nodes_seq().len(),
                            n < 0xFFFF_FFFF,
                            sidx == start.0 - 1,
                            start != goal,
                            open_set.wf(),
                            open_set.capacity() == n,
                            g_score@.len() == n,
                            came_from@.len() == n,
                            closed@.len() == n,
                            forall|jj: int|
                                0 <= jj < n ==> ((#[trigger] closed@[jj]) <==> closedset.contains(
                                    jj,
                                )),
                            closedset.finite(),
                            closedset.subset_of(set_int_range(0, n as int)),
                            closed_count == closedset.len(),
                            closed_count <= n,
                            g_score@[sidx as int] == Some(0u64),
                            came_from@[sidx as int] is None,
                            self.valid_node_id(current),
                            current != goal,
                            closed@[current.0 - 1],
                            current.0 - 1 == cidx,
                            cur_pos == self.node_at(current).spec_pos(),
                            j <= neighbours@.len(),
                            forall|t: int|
                                0 <= t < neighbours@.len() ==> {
                                    let (nb, eid) = #[trigger] neighbours@[t];
                                    &&& self.valid_edge_id(eid)
                                    &&& self.edge_at(eid).has_endpoint(current)
                                    &&& self.edge_at(eid).spec_other_node(current) == nb
                                    &&& self.valid_node_id(nb)
                                },
                            forall|jj: int|
                                open_set.present(jj) ==> 0 <= jj < n && (
                                #[trigger] g_score@[jj]) is Some && !closed@[jj] && (jj != sidx
                                    ==> came_from@[jj] is Some),
                            forall|jj: int|
                                0 <= jj < n && (#[trigger] came_from@[jj]) is Some ==> {
                                    let c = came_from@[jj].unwrap();
                                    &&& self.valid_node_id(c)
                                    &&& closed@[c.0 - 1]
                                    &&& (closed@[jj] ==> rank[c.0 - 1] < rank[jj])
                                    &&& exists|e: EdgeId|
                                        self.valid_edge_id(e) && self.edge_at(e).has_endpoint(
                                            NodeId((jj + 1) as u64),
                                        ) && (#[trigger] self.edge_at(e).spec_other_node(
                                            NodeId((jj + 1) as u64),
                                        )) == c
                                },
                            forall|jj: int|
                                0 <= jj < n && (#[trigger] closed@[jj]) ==> rank.contains_key(jj)
                                    && 0 <= rank[jj] < closed_count,
                            forall|jj: int|
                                0 <= jj < n && closed@[jj] && jj != sidx ==> (
                                #[trigger] came_from@[jj]) is Some,
                            forall|t: int|
                                0 <= t < explored@.len() ==> self.valid_edge_id(
                                    #[trigger] explored@[t],
                                ),
                            forall|c: int, t: int|
                                0 <= c < n && closed@[c] && c != cidx && 0 <= t < self.node_at(
                                    NodeId((c + 1) as u64),
                                ).spec_edges().len() ==> explored@.contains(
                                    #[trigger] self.node_at(NodeId((c + 1) as u64)).spec_edges()[
                                        t
                                    ],
                                ),
                            forall|t: int|
                                0 <= t < j ==> explored@.contains((#[trigger] neighbours@[t]).1),
                            forall|jj: int|
                                0 <= jj < n && closed@[jj] ==> (#[trigger] g_score@[jj]) is Some,
                            forall|jj: int|
                                0 <= jj < n && (#[trigger] g_score@[jj]) is Some && !closed@[jj]
                                    ==> open_set.present(jj),
                            forall|jj: int|
                                open_set.tried(jj) && !open_set.present(jj) ==> closed@[jj],
                            forall|c: int, t: int|
                                0 <= c < n && closed@[c] && c != cidx && 0 <= t < self.node_at(
                                    NodeId((c + 1) as u64),
                                ).spec_edges().len() ==> {
                                    let e = #[trigger] self.node_at(
                                        NodeId((c + 1) as u64),
                                    ).spec_edges()[t];
                                    g_score@[self.edge_at(e).spec_other_node(
                                        NodeId((c + 1) as u64),
                                    ).0 - 1] is Some
                                },
                            forall|t: int|
                                0 <= t < j ==> g_score@[(#[trigger] neighbours@[t]).0.0
                                    - 1] is Some,
                            neighbours@.len() == self.node_at(current).spec_edges().len(),
                            forall|t: int|
                                0 <= t < neighbours@.len() ==> (#[trigger] neighbours@[t]).1
                                    == self.node_at(current).spec_edges()[t],
                            !closed@[goal.0 - 1],
                            closed@[sidx as int] || open_set.present(sidx as int),
                        decreases neighbours@.len() - j,
                    {
                        let ghost g_entry = g_score@;
                        let ghost explored_entry = explored@;
                        let (neighbour, eid) = neighbours[j];
                        explored.push(eid);
                        proof {
                            assert(explored@ == explored_entry.push(eid));
                            assert forall|c: int, t: int|
                                0 <= c < n && closed@[c] && c != cidx && 0 <= t < self.node_at(
                                    NodeId((c + 1) as u64),
                                ).spec_edges().len() implies explored@.contains(
                                #[trigger] self.node_at(NodeId((c + 1) as u64)).spec_edges()[t],
                            ) by {
                                let e = self.node_at(NodeId((c + 1) as u64)).spec_edges()[t];
                                assert(explored_entry.contains(e));
                                let w = choose|w: int|
                                    0 <= w < explored_entry.len() && explored_entry[w] == e;
                                assert(explored@[w] == e);
                            }
                            assert forall|t: int| 0 <= t < j + 1 implies explored@.contains(
                                (#[trigger] neighbours@[t]).1,
                            ) by {
                                if t < j {
                                    let e = neighbours@[t].1;
                                    assert(explored_entry.contains(e));
                                    let w = choose|w: int|
                                        0 <= w < explored_entry.len() && explored_entry[w] == e;
                                    assert(explored@[w] == e);
                                } else {
                                    assert(explored@[explored@.len() - 1] == eid);
                                }
                            }
                        }
                        let nidx = (neighbour.0 - 1) as usize;
                        if !closed[nidx] {
                            proof {
                                assert(self.node_entry_wf(neighbour.0 - 1));
                                assert(self.edge_entry_wf(eid.0 - 1));
                                assert(self.edge_at(eid).spec_id() == eid) by {
                                    assert(self.edge_at(eid).spec_id().0 == eid.0);
                                }
                                assert(comp_bounded(
                                    self.node_at(neighbour).spec_pos(),
                                    self.spec_cfg().world_limit(),
                                ));
                                assert(self.node_entry_wf(current.0 - 1));
                                assert(comp_bounded(
                                    self.node_at(current).spec_pos(),
                                    self.spec_cfg().world_limit(),
                                ));
                                assert(self.spec_cfg().world_limit() <= 0x10_0000);
                            }
                            let nb_pos = self.get_node_pos(neighbour).unwrap();
                            let edge = self.get_edge(eid).unwrap();
                            let cost = dist_floor(cur_pos, nb_pos) / edge.get_speed();
                            let tentative = sat_add(g_current, cost);
                            let better = match g_score[nidx] {
                                None => true,
                                Some(g) => tentative < g,
                            };
                            if better {
                                came_from[nidx] = Some(current);
                                g_score[nidx] = Some(tentative);
                                let f = sat_add(tentative, h.estimate(nb_pos, goal_pos));
                                let ghost pre_push = open_set;
                                open_set.push(neighbour, f);
                                proof {
                                    assert(open_set.present(neighbour.0 - 1)) by {
                                        if pre_push.tried(neighbour.0 - 1) && !pre_push.present(
                                            neighbour.0 - 1,
                                        ) {
                                            assert(closed@[neighbour.0 - 1]);
                                        }
                                    }
                                    assert(came_from@[neighbour.0 - 1].unwrap() == current);
                                    assert(closed@[current.0 - 1]);
                                    assert(self.edge_at(eid).has_endpoint(
                                        NodeId((neighbour.0 - 1 + 1) as u64),
                                    ) && self.edge_at(eid).spec_other_node(
                                        NodeId((neighbour.0 - 1 + 1) as u64),
                                    ) == current) by {
                                        assert(NodeId((neighbour.0 - 1 + 1) as u64) == neighbour);
                                        assert(self.edge_at(eid).spec_nodes().0 != self.edge_at(
                                            eid,
                                        ).spec_nodes().1);
                                    }
                                    assert(neighbour.0 - 1 != sidx) by {
                                        if neighbour.0 - 1 == sidx {
                                            assert(tentative < 0);
                                        }
                                    }
                                }
                            }
                        }
                        proof {
                            assert(forall|x: int|
                                0 <= x < n && x != nidx ==> #[trigger] g_score@[x] == g_entry[x]);
                            assert forall|c: int, t: int|
                                0 <= c < n && closed@[c] && c != cidx && 0 <= t < self.node_at(
                                    NodeId((c + 1) as u64),
                                ).spec_edges().len() implies {
                                let e = #[trigger] self.node_at(
                                    NodeId((c + 1) as u64),
                                ).spec_edges()[t];
                                g_score@[self.edge_at(e).spec_other_node(
                                    NodeId((c + 1) as u64),
                                ).0 - 1] is Some
                            } by {
                                let cnode = NodeId((c + 1) as u64);
                                assert(self.node_entry_wf(c));
                                let e = self.node_at(cnode).spec_edges()[t];
                                assert(self.valid_edge_id(e));
                                assert(self.edge_entry_wf(e.0 - 1));
                                let other = self.edge_at(e).spec_other_node(cnode);
                                assert(self.valid_node_id(other));
                                assert(0 <= other.0 - 1 < n);
                                assert(g_entry[other.0 - 1] is Some);
                                if other.0 - 1 != nidx {
                                    assert(g_score@[other.0 - 1] == g_entry[other.0 - 1]);
                                } else {
                                    assert(g_score@[other.0 - 1] is Some);
                                }
                            }
                        }
                        j = j + 1;
                    }
                    proof {
                        assert(NodeId((cidx + 1) as u64) == current);
                        assert forall|c: int, t: int|
                            0 <= c < n && closed@[c] && 0 <= t < self.node_at(
                                NodeId((c + 1) as u64),
                            ).spec_edges().len() implies explored@.contains(
                            #[trigger] self.node_at(NodeId((c + 1) as u64)).spec_edges()[t],
                        ) by {
                            if c == cidx {
                                assert(neighbours@[t].1 == self.node_at(current).spec_edges()[t]);
                                assert(explored@.contains(neighbours@[t].1));
                            }
                        }
                        assert forall|c: int, t: int|
                            0 <= c < n && closed@[c] && 0 <= t < self.node_at(
                                NodeId((c + 1) as u64),
                            ).spec_edges().len() implies {
                            let e = #[trigger] self.node_at(NodeId((c + 1) as u64)).spec_edges()[
                                t
                            ];
                            g_score@[self.edge_at(e).spec_other_node(NodeId((c + 1) as u64)).0
                                - 1] is Some
                        } by {
                            if c == cidx {
                                assert(neighbours@[t].1 == self.node_at(current).spec_edges()[t]);
                                assert(self.edge_at(neighbours@[t].1).spec_other_node(current)
                                    == neighbours@[t].0);
                                assert(g_score@[neighbours@[t].0.0 - 1] is Some);
                            }
                        }
                        if start == goal {
                            assert(false);
                        }
                    }
                },
            }
        }
    }
}

} // verus!
