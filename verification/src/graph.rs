use vstd::prelude::*;
use crate::GraphError;

verus! {

/// One stored edge record. An edge lives on its source node only; `to` is the
/// arena index of the target node. An undirected record is interpreted
/// symmetrically by every consumer even though it is stored once.
#[derive(Clone, Copy, Debug, PartialEq, Eq, Structural)]
pub struct Connection {
    pub to: usize,
    pub weight: i32,
    pub directed: bool,
}

/// A labeled vertex. `index` is the creation index, stable for the graph's
/// lifetime. Positions are absent until a layout runs or explicit coordinates
/// were supplied; they are held in thousandths of a canvas unit.
#[derive(Debug)]
pub struct Node {
    pub label: String,
    pub index: usize,
    pub x: Option<i64>,
    pub y: Option<i64>,
    pub connections: Vec<Connection>,
}

/// The graph container: an arena of nodes in creation order. Labels are
/// unique; connections refer to targets by arena index.
#[derive(Debug)]
pub struct Graph {
    pub nodes: Vec<Node>,
    pub positions_set: bool,
}

/// One record of the flattened connection view: resolved labels, weight and
/// the directed flag of a single stored edge.
#[derive(Clone, Debug, PartialEq)]
pub struct ConnectionRecord {
    pub from: String,
    pub to: String,
    pub weight: i32,
    pub directed: bool,
}

impl Node {
    /// Append one edge record to this node, aimed at the arena index `to`.
    /// The graph-level `create_connection` resolves labels and checks that
    /// the target exists; this low-level form trusts its caller for that.
    pub fn add_connection(&mut self, to: usize, weight: i32, directed: Option<bool>)
        ensures
            final(self).label == old(self).label,
            final(self).index == old(self).index,
            final(self).x == old(self).x,
            final(self).y == old(self).y,
            final(self).connections@ == old(self).connections@.push(
                Connection { to, weight, directed: directed.unwrap_or(false) },
            ),
    {
        let directed = directed.unwrap_or(false);
        self.connections.push(Connection { to, weight, directed });
    }
}

impl Graph {
    /// Number of nodes, as a mathematical integer.
    pub open spec fn n(self) -> int {
        self.nodes@.len() as int
    }

    /// The node labels in creation order.
    pub open spec fn labels(self) -> Seq<Seq<char>> {
        self.nodes@.map_values(|nd: Node| nd.label@)
    }

    pub open spec fn has_label(self, l: Seq<char>) -> bool {
        exists|i: int| 0 <= i < self.n() && self.labels()[i] == l
    }

    /// The arena index carrying label `l` (meaningful when `has_label(l)`
    /// holds; unique under `wf`).
    pub open spec fn index_of(self, l: Seq<char>) -> int {
        choose|i: int| 0 <= i < self.n() && self.labels()[i] == l
    }

    /// The edges stored on node `i`, as (from, to, weight, directed) tuples.
    pub open spec fn node_edges(self, i: int) -> Seq<(int, int, i32, bool)> {
        self.nodes@[i].connections@.map_values(|c: Connection| (i, c.to as int, c.weight, c.directed))
    }

    /// The flattened edge view restricted to source nodes below `k`.
    pub open spec fn edges_up_to(self, k: int) -> Seq<(int, int, i32, bool)>
        decreases k,
    {
        if k <= 0 {
            Seq::empty()
        } else {
            self.edges_up_to(k - 1) + self.node_edges(k - 1)
        }
    }

    /// The flattened edge view: every stored edge, grouped by source node in
    /// creation order, in insertion order within a node.
    pub open spec fn edges(self) -> Seq<(int, int, i32, bool)> {
        self.edges_up_to(self.n())
    }

    /// Well-formedness: indices match positions, labels are unique, and every
    /// connection's target index is in range.
    pub open spec fn wf(self) -> bool {
        &&& forall|i: int| 0 <= i < self.n() ==> (#[trigger] self.nodes@[i]).index == i
        &&& forall|i: int, j: int|
            #![trigger self.labels()[i], self.labels()[j]]
            0 <= i < self.n() && 0 <= j < self.n() && i != j ==> self.labels()[i] != self.labels()[j]
        &&& forall|i: int, k: int|
            0 <= i < self.n() && 0 <= k < self.nodes@[i].connections@.len()
                ==> (#[trigger] self.nodes@[i].connections@[k]).to < self.nodes@.len()
    }

    pub fn new() -> (g: Graph)
        ensures
            g.wf(),
            g.nodes@.len() == 0,
            g.positions_set == false,
    {
        Graph { nodes: Vec::new(), positions_set: false }
    }

    /// Find the arena index of the node labeled `label`, scanning in creation
    /// order.
    pub fn find_node_index(&self, label: &String) -> (r: Option<usize>)
        ensures
            match r {
                Some(i) => i < self.nodes@.len() && self.labels()[i as int] == label@,
                None => !self.has_label(label@),
            },
    {
        let n = self.nodes.len();
        let mut i: usize = 0;
        while i < n
            invariant
                i <= n,
                n == self.nodes@.len(),
                forall|k: int| 0 <= k < i ==> self.labels()[k] != label@,
            decreases n - i,
        {
            proof {
                assert(self.labels()[i as int] == self.nodes@[i as int].label@);
            }
            if self.nodes[i].label.eq(label) {
                return Some(i);
            }
            i = i + 1;
        }
        None
    }

    /// Add a node with a fresh label and no position. A duplicate label is
    /// not fatal: the graph is left unchanged and `DuplicateLabel` reports
    /// the rejection.
    pub fn add_node(&mut self, label: String) -> (r: Result<(), GraphError>)
        requires
            old(self).wf(),
        ensures
            final(self).wf(),
            r is Ok <==> !old(self).has_label(label@),
            r is Err ==> r == Err::<(), GraphError>(GraphError::DuplicateLabel),
            final(self).positions_set == old(self).positions_set,
            r is Err ==> *final(self) == *old(self),
            r is Ok ==> {
                &&& final(self).nodes@.len() == old(self).nodes@.len() + 1
                &&& forall|i: int| 0 <= i < old(self).n() ==> final(self).nodes@[i] == old(self).nodes@[i]
                &&& final(self).nodes@[old(self).n()].label@ == label@
                &&& final(self).nodes@[old(self).n()].index == old(self).nodes@.len()
                &&& final(self).nodes@[old(self).n()].x is None
                &&& final(self).nodes@[old(self).n()].y is None
                &&& final(self).nodes@[old(self).n()].connections@.len() == 0
            },
    {
        if self.find_node_index(&label).is_some() {
            return Err(GraphError::DuplicateLabel);
        }
        let idx = self.nodes.len();
        let node = Node { label, index: idx, x: None, y: None, connections: Vec::new() };
        self.nodes.push(node);
        proof {
            assert forall|i: int| 0 <= i < final(self).n() implies (#[trigger] final(self).nodes@[i]).index == i by {}
            assert(forall|i: int| 0 <= i < old(self).n() ==> final(self).labels()[i] == old(self).labels()[i]);
        }
        Ok(())
    }

    /// Add a node with explicit coordinates, in thousandths of a canvas
    /// unit. A duplicate label leaves the graph unchanged and reports
    /// `DuplicateLabel`; on success the graph records that positions have
    /// been supplied.
    pub fn add_node_with_pos(&mut self, label: String, x: i64, y: i64) -> (r: Result<(), GraphError>)
        requires
            old(self).wf(),
        ensures
            final(self).wf(),
            r is Ok <==> !old(self).has_label(label@),
            r is Err ==> r == Err::<(), GraphError>(GraphError::DuplicateLabel),
            r is Err ==> *final(self) == *old(self),
            r is Ok ==> {
                &&& final(self).positions_set == true
                &&& final(self).nodes@.len() == old(self).nodes@.len() + 1
                &&& forall|i: int| 0 <= i < old(self).n() ==> final(self).nodes@[i] == old(self).nodes@[i]
                &&& final(self).nodes@[old(self).n()].label@ == label@
                &&& final(self).nodes@[old(self).n()].index == old(self).nodes@.len()
                &&& final(self).nodes@[old(self).n()].x == Some(x)
                &&& final(self).nodes@[old(self).n()].y == Some(y)
                &&& final(self).nodes@[old(self).n()].connections@.len() == 0
            },
    {
        if self.find_node_index(&label).is_some() {
            return Err(GraphError::DuplicateLabel);
        }
        let idx = self.nodes.len();
        let node = Node { label, index: idx, x: Some(x), y: Some(y), connections: Vec::new() };
        self.nodes.push(node);
        self.positions_set = true;
        proof {
            assert(forall|i: int| 0 <= i < old(self).n() ==> final(self).labels()[i] == old(self).labels()[i]);
        }
        Ok(())
    }

    /// Append one edge record to the `from` node. Both endpoints must already
    /// exist; otherwise nothing changes and `NodeNotFound` is reported. An
    /// absent `directed` flag means undirected.
    pub fn create_connection(&mut self, from: String, to: String, weight: i32, directed: Option<bool>)
        -> (r: Result<(), GraphError>)
        requires
            old(self).wf(),
        ensures
            final(self).wf(),
            final(self).positions_set == old(self).positions_set,
            r is Err <==> !(old(self).has_label(from@) && old(self).has_label(to@)),
            r is Err ==> r == Err::<(), GraphError>(GraphError::NodeNotFound) && *final(self) == *old(self),
            r is Ok ==> {
                let fi = old(self).index_of(from@);
                let ti = old(self).index_of(to@);
                &&& final(self).nodes@.len() == old(self).nodes@.len()
                &&& forall|i: int| 0 <= i < old(self).n() && i != fi ==> final(self).nodes@[i] == old(self).nodes@[i]
                &&& final(self).nodes@[fi].label == old(self).nodes@[fi].label
                &&& final(self).nodes@[fi].index == old(self).nodes@[fi].index
                &&& final(self).nodes@[fi].x == old(self).nodes@[fi].x
                &&& final(self).nodes@[fi].y == old(self).nodes@[fi].y
                &&& final(self).nodes@[fi].connections@ == old(self).nodes@[fi].connections@.push(
                    Connection { to: ti as usize, weight, directed: directed.unwrap_or(false) },
                )
            },
    {
        let directed = directed.unwrap_or(false);
        let from_idx = match self.find_node_index(&from) {
            Some(i) => i,
            None => {
                return Err(GraphError::NodeNotFound);
            },
        };
        let to_idx = match self.find_node_index(&to) {
            Some(i) => i,
            None => {
                return Err(GraphError::NodeNotFound);
            },
        };
        proof {
            assert(old(self).has_label(from@));
            assert(old(self).has_label(to@));
            // labels are unique, so the found indices are the chosen ones
            assert(from_idx as int == old(self).index_of(from@));
            assert(to_idx as int == old(self).index_of(to@));
        }
        let conn = Connection { to: to_idx, weight, directed };
        self.nodes[from_idx].connections.push(conn);
        proof {
            assert(forall|i: int| 0 <= i < final(self).n() ==> final(self).labels()[i] == old(self).labels()[i]);
        }
        Ok(())
    }

    /// The number of nodes.
    pub fn get_node_count(&self) -> (r: usize)
        ensures
            r == self.nodes@.len(),
    {
        self.nodes.len()
    }

    /// The flattened connection view: one record per stored edge, grouped by
    /// source node in creation order, with both labels resolved.
    pub fn get_connections(&self) -> (r: Vec<ConnectionRecord>)
        requires
            self.wf(),
        ensures
            r@.len() == self.edges().len(),
            forall|e: int| 0 <= e < r@.len() ==> {
                let ed = #[trigger] self.edges()[e];
                &&& r@[e].from@ == self.labels()[ed.0]
                &&& r@[e].to@ == self.labels()[ed.1]
                &&& r@[e].weight == ed.2
                &&& r@[e].directed == ed.3
            },
    {
        let n = self.nodes.len();
        let mut out: Vec<ConnectionRecord> = Vec::new();
        let mut i: usize = 0;
        while i < n
            invariant
                i <= n,
                n == self.nodes@.len(),
                self.wf(),
                out@.len() == self.edges_up_to(i as int).len(),
                forall|e: int| 0 <= e < out@.len() ==> {
                    let ed = #[trigger] self.edges_up_to(i as int)[e];
                    &&& r_matches(out@[e], *self, ed)
                },
            decreases n - i,
        {
            let conn_count = self.nodes[i].connections.len();
            let mut k: usize = 0;
            while k < conn_count
                invariant
                    k <= conn_count,
                    i < n,
                    n == self.nodes@.len(),
                    conn_count == self.nodes@[i as int].connections@.len(),
                    self.wf(),
                    out@.len() == self.edges_up_to(i as int).len() + k,
                    forall|e: int| 0 <= e < out@.len() ==> {
                        let ed = #[trigger] (self.edges_up_to(i as int) + self.node_edges(i as int))[e];
                        &&& r_matches(out@[e], *self, ed)
                    },
                decreases conn_count - k,
            {
                let c = self.nodes[i].connections[k];
                let rec = ConnectionRecord {
                    from: self.nodes[i].label.clone(),
                    to: self.nodes[c.to].label.clone(),
                    weight: c.weight,
                    directed: c.directed,
                };
                proof {
                    assert(self.node_edges(i as int)[k as int] == (i as int, c.to as int, c.weight, c.directed));
                    assert(self.labels()[i as int] == self.nodes@[i as int].label@);
                    assert(self.labels()[c.to as int] == self.nodes@[c.to as int].label@);
                }
                out.push(rec);
                k = k + 1;
            }
            proof {
                assert(self.edges_up_to(i as int + 1) == self.edges_up_to(i as int) + self.node_edges(i as int));
            }
            i = i + 1;
        }
        proof {
            assert(out@.len() == self.edges().len());
        }
        out
    }

    /// The number of stored edge records (an undirected edge counts once).
    pub fn get_edge_count(&self) -> (r: usize)
        requires
            self.wf(),
        ensures
            r == self.edges().len(),
    {
        self.get_connections().len()
    }
}

impl Default for Graph {
    /// An empty graph.
    fn default() -> (g: Graph)
        ensures
            g.wf(),
            g.nodes@.len() == 0,
            g.positions_set == false,
    {
        Graph::new()
    }
}

/// Whether one flattened record resolves the labels of edge `ed` of graph `g`.
pub open spec fn r_matches(rec: ConnectionRecord, g: Graph, ed: (int, int, i32, bool)) -> bool {
    &&& rec.from@ == g.labels()[ed.0]
    &&& rec.to@ == g.labels()[ed.1]
    &&& rec.weight == ed.2
    &&& rec.directed == ed.3
}

/// Swap each (index, label) pair of an index-to-label listing into a
/// label-to-index pair, keeping the order.
pub fn invert_node_hashmap(node_hashmap: Vec<(usize, String)>) -> (r: Vec<(String, usize)>)
    ensures
        r@.len() == node_hashmap@.len(),
        forall|i: int| 0 <= i < r@.len() ==> {
            &&& #[trigger] r@[i].0 == node_hashmap@[i].1
            &&& r@[i].1 == node_hashmap@[i].0
        },
{
    let mut out: Vec<(String, usize)> = Vec::new();
    let mut i: usize = 0;
    while i < node_hashmap.len()
        invariant
            i <= node_hashmap@.len(),
            out@.len() == i,
            forall|k: int| 0 <= k < i ==> {
                &&& #[trigger] out@[k].0 == node_hashmap@[k].1
                &&& out@[k].1 == node_hashmap@[k].0
            },
        decreases node_hashmap@.len() - i,
    {
        let (idx, label) = (node_hashmap[i].0, node_hashmap[i].1.clone());
        out.push((label, idx));
        i = i + 1;
    }
    out
}

} // verus!
