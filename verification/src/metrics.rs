use vstd::prelude::*;
use crate::graph::Graph;
use crate::GraphError;

verus! {

/// An exact ratio. Metrics that divide return the untouched numerator and
/// denominator instead of a rounded quotient; the denominator is never zero.
#[derive(Clone, Copy, Debug, PartialEq, Eq, Structural)]
pub struct Ratio {
    pub num: i128,
    pub den: u128,
}

/// The four degree counters of one node.
#[derive(Clone, Copy, Debug, PartialEq, Eq, Structural)]
pub struct Degrees {
    pub in_degree: u128,
    pub out_degree: u128,
    pub total_degree: u128,
    pub undirected_degree: u128,
}

/// The degree counters each normalized by `n - 1`.
#[derive(Clone, Copy, Debug, PartialEq, Eq, Structural)]
pub struct Centralities {
    pub in_centrality: Ratio,
    pub out_centrality: Ratio,
    pub total_centrality: Ratio,
    pub undirected_centrality: Ratio,
}

/// The weighted degree counters of one node.
#[derive(Clone, Copy, Debug, PartialEq, Eq, Structural)]
pub struct Strengths {
    pub in_strength: i128,
    pub out_strength: i128,
    pub total_strength: i128,
}

/// The sum of `f` over the first `k` edges of `s`.
pub open spec fn sum_edge_fn(s: Seq<(int, int, i32, bool)>, f: spec_fn((int, int, i32, bool)) -> int, k: int) -> int
    decreases k,
{
    if k <= 0 {
        0
    } else {
        sum_edge_fn(s, f, k - 1) + f(s[k - 1])
    }
}

/// Contribution of one edge to the plain edge-weight sum.
pub open spec fn weight_f() -> spec_fn((int, int, i32, bool)) -> int {
    |e: (int, int, i32, bool)| e.2 as int
}

/// Contribution of one edge to the out-degree of the node labeled `l`:
/// a directed edge leaving it.
pub open spec fn out_deg_f(g: Graph, l: Seq<char>) -> spec_fn((int, int, i32, bool)) -> int {
    |e: (int, int, i32, bool)| if e.3 && g.labels()[e.0] == l { 1int } else { 0int }
}

/// Contribution of one edge to the in-degree of the node labeled `l`:
/// a directed edge entering it.
pub open spec fn in_deg_f(g: Graph, l: Seq<char>) -> spec_fn((int, int, i32, bool)) -> int {
    |e: (int, int, i32, bool)| if e.3 && g.labels()[e.1] == l { 1int } else { 0int }
}

/// Contribution of one edge to the undirected degree of the node labeled `l`:
/// an undirected edge touching it, counted once even as a self-loop.
pub open spec fn und_deg_f(g: Graph, l: Seq<char>) -> spec_fn((int, int, i32, bool)) -> int {
    |e: (int, int, i32, bool)|
        if !e.3 && (g.labels()[e.0] == l || g.labels()[e.1] == l) { 1int } else { 0int }
}

/// Contribution of one edge to the out-strength of the node labeled `l`: its
/// weight when the edge leaves the node, and also when an undirected edge
/// enters it.
pub open spec fn out_str_f(g: Graph, l: Seq<char>) -> spec_fn((int, int, i32, bool)) -> int {
    |e: (int, int, i32, bool)|
        (if g.labels()[e.0] == l { e.2 as int } else { 0int })
        + (if !e.3 && g.labels()[e.1] == l { e.2 as int } else { 0int })
}

/// Contribution of one edge to the in-strength of the node labeled `l`: its
/// weight when the edge enters the node, and also when an undirected edge
/// leaves it.
pub open spec fn in_str_f(g: Graph, l: Seq<char>) -> spec_fn((int, int, i32, bool)) -> int {
    |e: (int, int, i32, bool)|
        (if g.labels()[e.1] == l { e.2 as int } else { 0int })
        + (if !e.3 && g.labels()[e.0] == l { e.2 as int } else { 0int })
}

/// The sum of all stored edge weights.
pub open spec fn spec_total_weight(g: Graph) -> int {
    sum_edge_fn(g.edges(), weight_f(), g.edges().len() as int)
}

pub open spec fn spec_out_degree(g: Graph, l: Seq<char>) -> int {
    sum_edge_fn(g.edges(), out_deg_f(g, l), g.edges().len() as int)
}

pub open spec fn spec_in_degree(g: Graph, l: Seq<char>) -> int {
    sum_edge_fn(g.edges(), in_deg_f(g, l), g.edges().len() as int)
}

pub open spec fn spec_und_degree(g: Graph, l: Seq<char>) -> int {
    sum_edge_fn(g.edges(), und_deg_f(g, l), g.edges().len() as int)
}

pub open spec fn spec_out_strength(g: Graph, l: Seq<char>) -> int {
    sum_edge_fn(g.edges(), out_str_f(g, l), g.edges().len() as int)
}

pub open spec fn spec_in_strength(g: Graph, l: Seq<char>) -> int {
    sum_edge_fn(g.edges(), in_str_f(g, l), g.edges().len() as int)
}

/// The degree record the metrics owe the node labeled `l`.
pub open spec fn spec_degrees(g: Graph, l: Seq<char>) -> Degrees {
    Degrees {
        in_degree: spec_in_degree(g, l) as u128,
        out_degree: spec_out_degree(g, l) as u128,
        total_degree: (spec_in_degree(g, l) + spec_out_degree(g, l)) as u128,
        undirected_degree: spec_und_degree(g, l) as u128,
    }
}

impl Graph {
    /// Sum of the weight over every stored edge record (an undirected edge is
    /// stored once and counted once).
    pub fn get_total_weight(&self) -> (r: i128)
        requires
            self.wf(),
        ensures
            r == spec_total_weight(*self),
    {
        let records = self.get_connections();
        let ghost f = weight_f();
        let mut total: i128 = 0;
        let mut i: usize = 0;
        while i < records.len()
            invariant
                i <= records@.len(),
                records@.len() == self.edges().len(),
                total == sum_edge_fn(self.edges(), f, i as int),
                f == weight_f(),
                -0x1_0000_0000i128 * (i as i128) <= total <= 0x1_0000_0000i128 * (i as i128),
                forall|e: int| 0 <= e < records@.len()
                    ==> (#[trigger] records@[e]).weight == self.edges()[e].2,
            decreases records@.len() - i,
        {
            total = total + (records[i].weight as i128);
            i = i + 1;
        }
        total
    }

    /// Total weight divided by the number of edges; an edgeless graph has no
    /// mean weight.
    pub fn get_mean_weight(&self) -> (r: Result<Ratio, GraphError>)
        requires
            self.wf(),
        ensures
            r is Err <==> self.edges().len() == 0,
            r is Err ==> r == Err::<Ratio, GraphError>(GraphError::EmptyGraphDivision),
            r is Ok ==> r.unwrap() == (Ratio {
                num: spec_total_weight(*self) as i128,
                den: self.edges().len() as u128,
            }),
    {
        let edge_count = self.get_edge_count();
        if edge_count == 0 {
            return Err(GraphError::EmptyGraphDivision);
        }
        let total = self.get_total_weight();
        proof {
            lemma_sum_edge_fn_bounded(self.edges(), weight_f(), self.edges().len() as int);
        }
        Ok(Ratio { num: total, den: edge_count as u128 })
    }

    /// `multiplier * edges / (n * (n - 1))`, the multiplier chosen by the
    /// caller-supplied directedness assumption (2 when directed, else 1). A
    /// graph with at most one node has no density.
    pub fn get_density(&self, directed: Option<bool>) -> (r: Result<Ratio, GraphError>)
        requires
            self.wf(),
        ensures
            r is Err <==> self.nodes@.len() <= 1,
            r is Err ==> r == Err::<Ratio, GraphError>(GraphError::EmptyGraphDivision),
            r is Ok ==> r.unwrap() == (Ratio {
                num: (if directed.unwrap_or(false) { 2int } else { 1int } * self.edges().len()) as i128,
                den: (self.nodes@.len() * (self.nodes@.len() - 1)) as u128,
            }),
    {
        let n = self.get_node_count();
        if n <= 1 {
            return Err(GraphError::EmptyGraphDivision);
        }
        let edge_count = self.get_edge_count();
        let multiplier: u128 = if directed.unwrap_or(false) { 2 } else { 1 };
        let num = multiplier * (edge_count as u128);
        let nn = n as u128;
        proof {
            assert(num <= 2 * (u64::MAX as u128)) by (nonlinear_arith)
                requires multiplier <= 2 && edge_count <= u64::MAX as u128 && num == multiplier * (edge_count as u128);
            assert(num <= i128::MAX as u128);
            assert(nn * (nn - 1) <= (u64::MAX as u128) * (u64::MAX as u128)) by (nonlinear_arith)
                requires 2 <= nn <= u64::MAX as u128;
        }
        let den = nn * (nn - 1);
        Ok(Ratio { num: num as i128, den })
    }

    /// `multiplier * edges / n`, the multiplier chosen by the caller-supplied
    /// directedness assumption (1 when directed, else 2). An empty graph has
    /// no average degree.
    pub fn get_average_degree(&self, directed: Option<bool>) -> (r: Result<Ratio, GraphError>)
        requires
            self.wf(),
        ensures
            r is Err <==> self.nodes@.len() == 0,
            r is Err ==> r == Err::<Ratio, GraphError>(GraphError::EmptyGraphDivision),
            r is Ok ==> r.unwrap() == (Ratio {
                num: (if directed.unwrap_or(false) { 1int } else { 2int } * self.edges().len()) as i128,
                den: self.nodes@.len() as u128,
            }),
    {
        let n = self.get_node_count();
        if n == 0 {
            return Err(GraphError::EmptyGraphDivision);
        }
        let edge_count = self.get_edge_count();
        let multiplier: u128 = if directed.unwrap_or(false) { 1 } else { 2 };
        let num = multiplier * (edge_count as u128);
        proof {
            assert(num <= 2 * (u64::MAX as u128)) by (nonlinear_arith)
                requires multiplier <= 2 && edge_count <= u64::MAX as u128 && num == multiplier * (edge_count as u128);
            assert(num <= i128::MAX as u128);
        }
        Ok(Ratio { num: num as i128, den: n as u128 })
    }

    /// Count the four degrees of the label in one pass over the flattened
    /// view; an absent label simply counts nothing.
    fn degree_counts(&self, label: &String) -> (d: Degrees)
        requires
            self.wf(),
        ensures
            d == spec_degrees(*self, label@),
    {
        let records = self.get_connections();
        let ghost fo = out_deg_f(*self, label@);
        let ghost fi = in_deg_f(*self, label@);
        let ghost fu = und_deg_f(*self, label@);
        let mut in_degree: u128 = 0;
        let mut out_degree: u128 = 0;
        let mut undirected_degree: u128 = 0;
        let mut i: usize = 0;
        while i < records.len()
            invariant
                i <= records@.len(),
                records@.len() == self.edges().len(),
                fo == out_deg_f(*self, label@),
                fi == in_deg_f(*self, label@),
                fu == und_deg_f(*self, label@),
                out_degree == sum_edge_fn(self.edges(), fo, i as int),
                in_degree == sum_edge_fn(self.edges(), fi, i as int),
                undirected_degree == sum_edge_fn(self.edges(), fu, i as int),
                in_degree <= i && out_degree <= i && undirected_degree <= i,
                forall|e: int| 0 <= e < records@.len() ==> {
                    let ed = #[trigger] self.edges()[e];
                    &&& records@[e].from@ == self.labels()[ed.0]
                    &&& records@[e].to@ == self.labels()[ed.1]
                    &&& records@[e].directed == ed.3
                },
            decreases records@.len() - i,
        {
            let from_matches = records[i].from.eq(label);
            let to_matches = records[i].to.eq(label);
            if records[i].directed {
                if from_matches {
                    out_degree = out_degree + 1;
                }
                if to_matches {
                    in_degree = in_degree + 1;
                }
            } else {
                if from_matches || to_matches {
                    undirected_degree = undirected_degree + 1;
                }
            }
            i = i + 1;
        }
        Degrees {
            in_degree,
            out_degree,
            total_degree: in_degree + out_degree,
            undirected_degree,
        }
    }

    /// The four degree counters of the node labeled `label`. A directed edge
    /// counts toward the out-degree of its source and the in-degree of its
    /// target (a directed self-loop counts for both); an undirected edge adds
    /// exactly one to the undirected degree of each endpoint it touches, once
    /// even when it is a self-loop. The total is the directed in + out count.
    pub fn compute_degrees(&self, label: &String) -> (r: Result<Degrees, GraphError>)
        requires
            self.wf(),
        ensures
            r is Err <==> !self.has_label(label@),
            r is Err ==> r == Err::<Degrees, GraphError>(GraphError::NodeNotFound),
            r is Ok ==> r.unwrap() == spec_degrees(*self, label@),
    {
        if self.find_node_index(label).is_none() {
            return Err(GraphError::NodeNotFound);
        }
        Ok(self.degree_counts(label))
    }

    /// The degree record of every node, in creation order.
    pub fn get_all_nodes_degrees(&self) -> (r: Vec<(String, Degrees)>)
        requires
            self.wf(),
        ensures
            r@.len() == self.nodes@.len(),
            forall|i: int| 0 <= i < r@.len() ==> (#[trigger] r@[i]).0@ == self.labels()[i],
            forall|i: int| 0 <= i < r@.len() ==> (#[trigger] r@[i]).1 == spec_degrees(*self, self.labels()[i]),
    {
        let n = self.nodes.len();
        let mut out: Vec<(String, Degrees)> = Vec::new();
        let mut i: usize = 0;
        while i < n
            invariant
                i <= n,
                n == self.nodes@.len(),
                self.wf(),
                out@.len() == i,
                forall|k: int| 0 <= k < i ==> (#[trigger] out@[k]).0@ == self.labels()[k],
                forall|k: int| 0 <= k < i ==> (#[trigger] out@[k]).1 == spec_degrees(*self, self.labels()[k]),
            decreases n - i,
        {
            let label = self.nodes[i].label.clone();
            let degrees = self.degree_counts(&label);
            proof {
                assert(label@ == self.labels()[i as int]);
            }
            out.push((label, degrees));
            i = i + 1;
        }
        out
    }

    /// Each degree counter divided by `n - 1`. The label must exist, and a
    /// graph with at most one node has no centrality.
    pub fn get_centrality_degrees(&self, label: &String) -> (r: Result<Centralities, GraphError>)
        requires
            self.wf(),
        ensures
            r == Err::<Centralities, GraphError>(GraphError::NodeNotFound) <==> !self.has_label(label@),
            self.has_label(label@) && self.nodes@.len() <= 1
                ==> r == Err::<Centralities, GraphError>(GraphError::EmptyGraphDivision),
            r is Ok <==> self.has_label(label@) && self.nodes@.len() > 1,
            r is Ok ==> {
                let d = spec_degrees(*self, label@);
                let den = (self.nodes@.len() - 1) as u128;
                r.unwrap() == (Centralities {
                    in_centrality: Ratio { num: d.in_degree as i128, den },
                    out_centrality: Ratio { num: d.out_degree as i128, den },
                    total_centrality: Ratio { num: d.total_degree as i128, den },
                    undirected_centrality: Ratio { num: d.undirected_degree as i128, den },
                })
            },
    {
        if self.find_node_index(label).is_none() {
            return Err(GraphError::NodeNotFound);
        }
        let n = self.get_node_count();
        if n <= 1 {
            return Err(GraphError::EmptyGraphDivision);
        }
        let d = self.degree_counts(label);
        proof {
            lemma_degree_bounds(*self, label@);
        }
        let den = (n - 1) as u128;
        Ok(Centralities {
            in_centrality: Ratio { num: d.in_degree as i128, den },
            out_centrality: Ratio { num: d.out_degree as i128, den },
            total_centrality: Ratio { num: d.total_degree as i128, den },
            undirected_centrality: Ratio { num: d.undirected_degree as i128, den },
        })
    }

    /// The weighted degrees of the node labeled `label`: an edge's weight
    /// joins the out-strength of its source and the in-strength of its
    /// target; an undirected edge's weight joins both counters of each
    /// endpoint it touches. The label must exist.
    pub fn get_node_strength(&self, label: &String) -> (r: Result<Strengths, GraphError>)
        requires
            self.wf(),
        ensures
            r is Err <==> !self.has_label(label@),
            r is Err ==> r == Err::<Strengths, GraphError>(GraphError::NodeNotFound),
            r is Ok ==> r.unwrap() == (Strengths {
                in_strength: spec_in_strength(*self, label@) as i128,
                out_strength: spec_out_strength(*self, label@) as i128,
                total_strength: (spec_out_strength(*self, label@) + spec_in_strength(*self, label@)) as i128,
            }),
    {
        if self.find_node_index(label).is_none() {
            return Err(GraphError::NodeNotFound);
        }
        let records = self.get_connections();
        let ghost fo = out_str_f(*self, label@);
        let ghost fi = in_str_f(*self, label@);
        let mut in_strength: i128 = 0;
        let mut out_strength: i128 = 0;
        let mut i: usize = 0;
        while i < records.len()
            invariant
                i <= records@.len(),
                records@.len() == self.edges().len(),
                fo == out_str_f(*self, label@),
                fi == in_str_f(*self, label@),
                out_strength == sum_edge_fn(self.edges(), fo, i as int),
                in_strength == sum_edge_fn(self.edges(), fi, i as int),
                -0x2_0000_0000i128 * (i as i128) <= out_strength <= 0x2_0000_0000i128 * (i as i128),
                -0x2_0000_0000i128 * (i as i128) <= in_strength <= 0x2_0000_0000i128 * (i as i128),
                forall|e: int| 0 <= e < records@.len() ==> {
                    let ed = #[trigger] self.edges()[e];
                    &&& records@[e].from@ == self.labels()[ed.0]
                    &&& records@[e].to@ == self.labels()[ed.1]
                    &&& records@[e].weight == ed.2
                    &&& records@[e].directed == ed.3
                },
            decreases records@.len() - i,
        {
            let from_matches = records[i].from.eq(label);
            let to_matches = records[i].to.eq(label);
            let w = records[i].weight as i128;
            let directed = records[i].directed;
            if from_matches {
                out_strength = out_strength + w;
            }
            if !directed && to_matches {
                out_strength = out_strength + w;
            }
            if to_matches {
                in_strength = in_strength + w;
            }
            if !directed && from_matches {
                in_strength = in_strength + w;
            }
            i = i + 1;
        }
        proof {
            lemma_strength_bounds(*self, label@);
        }
        Ok(Strengths {
            in_strength,
            out_strength,
            total_strength: out_strength + in_strength,
        })
    }
}

/// A sum of per-edge values each within `[-b, b]` lies within `[-k*b, k*b]`.
pub proof fn lemma_sum_edge_fn_bound(s: Seq<(int, int, i32, bool)>, f: spec_fn((int, int, i32, bool)) -> int, k: int, b: int)
    requires
        k >= 0,
        b >= 0,
        forall|e: (int, int, i32, bool)| -b <= #[trigger] f(e) <= b,
    ensures
        -(k * b) <= sum_edge_fn(s, f, k) <= k * b,
    decreases k,
{
    if k > 0 {
        lemma_sum_edge_fn_bound(s, f, k - 1, b);
        assert((k - 1) * b + b == k * b) by (nonlinear_arith);
    }
}

/// The plain weight sum over `k` edges fits within `k` weight magnitudes.
pub proof fn lemma_sum_edge_fn_bounded(s: Seq<(int, int, i32, bool)>, f: spec_fn((int, int, i32, bool)) -> int, k: int)
    requires
        f == weight_f(),
        k >= 0,
    ensures
        -(k * 0x8000_0000) <= sum_edge_fn(s, f, k) <= k * 0x8000_0000,
{
    assert forall|e: (int, int, i32, bool)| -0x8000_0000 <= #[trigger] f(e) <= 0x8000_0000 by {}
    lemma_sum_edge_fn_bound(s, f, k, 0x8000_0000);
}

/// Every degree counter of a label is at most the number of edges.
pub proof fn lemma_degree_bounds(g: Graph, l: Seq<char>)
    ensures
        0 <= spec_in_degree(g, l) <= g.edges().len(),
        0 <= spec_out_degree(g, l) <= g.edges().len(),
        0 <= spec_und_degree(g, l) <= g.edges().len(),
{
    lemma_sum_edge_fn_bound(g.edges(), in_deg_f(g, l), g.edges().len() as int, 1);
    lemma_sum_edge_fn_bound(g.edges(), out_deg_f(g, l), g.edges().len() as int, 1);
    lemma_sum_edge_fn_bound(g.edges(), und_deg_f(g, l), g.edges().len() as int, 1);
    lemma_sum_edge_fn_nonneg(g.edges(), in_deg_f(g, l), g.edges().len() as int);
    lemma_sum_edge_fn_nonneg(g.edges(), out_deg_f(g, l), g.edges().len() as int);
    lemma_sum_edge_fn_nonneg(g.edges(), und_deg_f(g, l), g.edges().len() as int);
}

/// A sum of non-negative per-edge values is non-negative.
pub proof fn lemma_sum_edge_fn_nonneg(s: Seq<(int, int, i32, bool)>, f: spec_fn((int, int, i32, bool)) -> int, k: int)
    requires
        forall|e: (int, int, i32, bool)| #[trigger] f(e) >= 0,
    ensures
        sum_edge_fn(s, f, k) >= 0,
    decreases k,
{
    if k > 0 {
        lemma_sum_edge_fn_nonneg(s, f, k - 1);
    }
}

/// Both strengths of a label are bounded by twice the edge count times the
/// largest weight magnitude.
pub proof fn lemma_strength_bounds(g: Graph, l: Seq<char>)
    ensures
        -(g.edges().len() * 0x1_0000_0000) <= spec_in_strength(g, l) <= g.edges().len() * 0x1_0000_0000,
        -(g.edges().len() * 0x1_0000_0000) <= spec_out_strength(g, l) <= g.edges().len() * 0x1_0000_0000,
{
    assert forall|e: (int, int, i32, bool)|
        -0x1_0000_0000 <= #[trigger] in_str_f(g, l)(e) <= 0x1_0000_0000 by {}
    assert forall|e: (int, int, i32, bool)|
        -0x1_0000_0000 <= #[trigger] out_str_f(g, l)(e) <= 0x1_0000_0000 by {}
    lemma_sum_edge_fn_bound(g.edges(), in_str_f(g, l), g.edges().len() as int, 0x1_0000_0000);
    lemma_sum_edge_fn_bound(g.edges(), out_str_f(g, l), g.edges().len() as int, 0x1_0000_0000);
}

/// The three degree-value probability mass functions: per observed degree
/// value of each kind, the fraction of nodes holding it, in ascending value
/// order.
#[derive(Clone, Debug, PartialEq)]
pub struct DegreeDistribution {
    pub in_distribution: Vec<(u128, Ratio)>,
    pub out_distribution: Vec<(u128, Ratio)>,
    pub undirected_distribution: Vec<(u128, Ratio)>,
}

/// The rank-weighted degree asymmetry of each degree kind. A kind whose
/// degrees sum to zero has no skewness.
#[derive(Clone, Copy, Debug, PartialEq, Eq, Structural)]
pub struct Skewness {
    pub in_skewness: Option<Ratio>,
    pub out_skewness: Option<Ratio>,
    pub undirected_skewness: Option<Ratio>,
}

/// How many of the first `k` values equal `v`.
pub open spec fn count_val(s: Seq<int>, v: int, k: int) -> int
    decreases k,
{
    if k <= 0 {
        0
    } else {
        count_val(s, v, k - 1) + if s[k - 1] == v { 1int } else { 0int }
    }
}

/// How many of the first `k` values exceed `v`.
pub open spec fn count_gt(s: Seq<int>, v: int, k: int) -> int
    decreases k,
{
    if k <= 0 {
        0
    } else {
        count_gt(s, v, k - 1) + if s[k - 1] > v { 1int } else { 0int }
    }
}

/// The sum of the first `k` values.
pub open spec fn sum_vals(s: Seq<int>, k: int) -> int
    decreases k,
{
    if k <= 0 {
        0
    } else {
        sum_vals(s, k - 1) + s[k - 1]
    }
}

/// The descending rank of position `i`: one, plus the strictly larger values
/// anywhere, plus the equal values at earlier positions (ties broken by
/// creation order).
pub open spec fn rank_of(s: Seq<int>, i: int) -> int {
    1 + count_gt(s, s[i], s.len() as int) + count_val(s, s[i], i)
}

/// The rank-weighted degree sum over the first `k` positions.
pub open spec fn sknum(s: Seq<int>, k: int) -> int
    decreases k,
{
    if k <= 0 {
        0
    } else {
        sknum(s, k - 1) + rank_of(s, k - 1) * s[k - 1]
    }
}

/// The integer views of held degree values.
pub open spec fn iv(s: Seq<u128>) -> Seq<int> {
    s.map_values(|x: u128| x as int)
}

/// Whether some grouped entry carries value `v`.
pub open spec fn has_entry(e: Seq<(u128, Ratio)>, v: u128) -> bool {
    exists|a: int| 0 <= a < e.len() && (#[trigger] e[a]).0 == v
}

/// Count how many stored values equal `v`.
fn count_val_exec(vals: &Vec<u128>, v: u128, upto: usize) -> (c: usize)
    requires
        upto <= vals@.len(),
    ensures
        c == count_val(iv(vals@), v as int, upto as int),
        c <= upto,
{
    let mut c: usize = 0;
    let mut i: usize = 0;
    while i < upto
        invariant
            i <= upto,
            upto <= vals@.len(),
            c <= i,
            c == count_val(iv(vals@), v as int, i as int),
        decreases upto - i,
    {
        if vals[i] == v {
            c = c + 1;
        }
        i = i + 1;
    }
    c
}

/// Count how many stored values exceed `v`.
fn count_gt_exec(vals: &Vec<u128>, v: u128) -> (c: usize)
    ensures
        c == count_gt(iv(vals@), v as int, vals@.len() as int),
        c <= vals@.len(),
{
    let mut c: usize = 0;
    let mut i: usize = 0;
    while i < vals.len()
        invariant
            i <= vals@.len(),
            c <= i,
            c == count_gt(iv(vals@), v as int, i as int),
        decreases vals@.len() - i,
    {
        if vals[i] > v {
            c = c + 1;
        }
        i = i + 1;
    }
    c
}

/// Group equal values: one entry per distinct value in ascending order, with
/// the count of nodes holding it over the node count.
fn build_distribution(vals: &Vec<u128>, n_nodes: usize) -> (e: Vec<(u128, Ratio)>)
    requires
        vals@.len() <= n_nodes,
    ensures
        forall|a: int, b: int| #![trigger e@[a].0, e@[b].0] 0 <= a < b < e@.len() ==> e@[a].0 < e@[b].0,
        forall|a: int| 0 <= a < e@.len() ==> {
            &&& (#[trigger] e@[a]).1.num == count_val(iv(vals@), e@[a].0 as int, vals@.len() as int)
            &&& e@[a].1.den == n_nodes as u128
            &&& e@[a].1.num >= 1
        },
        forall|k: int| #![trigger vals@[k]] 0 <= k < vals@.len() ==> has_entry(e@, vals@[k]),
{
    let den = n_nodes as u128;
    let mut e: Vec<(u128, Ratio)> = Vec::new();
    let mut i: usize = 0;
    while i < vals.len()
        invariant
            i <= vals@.len(),
            vals@.len() <= n_nodes,
            forall|a: int, b: int| #![trigger e@[a].0, e@[b].0] 0 <= a < b < e@.len() ==> e@[a].0 < e@[b].0,
            forall|a: int| 0 <= a < e@.len() ==> {
                &&& (#[trigger] e@[a]).1.num == count_val(iv(vals@), e@[a].0 as int, i as int)
                &&& e@[a].1.den == den
                &&& 1 <= e@[a].1.num <= i
            },
            forall|k: int| #![trigger vals@[k]] 0 <= k < i ==> has_entry(e@, vals@[k]),
        decreases vals@.len() - i,
    {
        let v = vals[i];
        let mut pos: usize = 0;
        while pos < e.len() && e[pos].0 < v
            invariant
                pos <= e@.len(),
                forall|b: int| 0 <= b < pos ==> (#[trigger] e@[b]).0 < v,
            decreases e@.len() - pos,
        {
            pos = pos + 1;
        }
        let ghost pre = e@;
        if pos < e.len() && e[pos].0 == v {
            let old_ratio = e[pos].1;
            e.set(pos, (v, Ratio { num: old_ratio.num + 1, den }));
            proof {
                assert forall|a: int| 0 <= a < e@.len() implies {
                    &&& (#[trigger] e@[a]).1.num == count_val(iv(vals@), e@[a].0 as int, i as int + 1)
                    &&& e@[a].1.den == den
                    &&& 1 <= e@[a].1.num <= i + 1
                } by {
                    if a != pos {
                        assert(e@[a] == pre[a]);
                        assert(e@[a].0 != v);
                    }
                }
                assert forall|k: int| #![trigger vals@[k]] 0 <= k < i + 1
                    implies has_entry(e@, vals@[k]) by {
                    if k < i {
                        assert(has_entry(pre, vals@[k]));
                        let a = choose|a: int| 0 <= a < pre.len() && (#[trigger] pre[a]).0 == vals@[k];
                        assert(e@[a].0 == vals@[k]);
                    } else {
                        assert(e@[pos as int].0 == vals@[k]);
                    }
                }
            }
        } else {
            e.insert(pos, (v, Ratio { num: 1, den }));
            proof {
                pre.insert_ensures(pos as int, (v, Ratio { num: 1, den }));
                assert forall|a: int, b: int| #![trigger e@[a].0, e@[b].0] 0 <= a < b < e@.len()
                    implies e@[a].0 < e@[b].0 by {
                    if b < pos {
                    } else if a < pos && b == pos {
                        assert(e@[a] == pre[a]);
                    } else if a < pos && b > pos {
                        assert(e@[a] == pre[a]);
                        assert(e@[b] == pre[b - 1]);
                    } else if a == pos && b > pos {
                        assert(e@[b] == pre[b - 1]);
                        assert(pre[b - 1].0 >= v);
                        assert(pre[b - 1].0 != v || b - 1 < pos);
                    } else {
                        assert(e@[a] == pre[a - 1]);
                        assert(e@[b] == pre[b - 1]);
                    }
                }
                assert forall|a: int| 0 <= a < e@.len() implies {
                    &&& (#[trigger] e@[a]).1.num == count_val(iv(vals@), e@[a].0 as int, i as int + 1)
                    &&& e@[a].1.den == den
                    &&& 1 <= e@[a].1.num <= i + 1
                } by {
                    if a < pos {
                        assert(e@[a] == pre[a]);
                        assert(e@[a].0 != v);
                    } else if a > pos {
                        assert(e@[a] == pre[a - 1]);
                        assert(e@[a].0 != v);
                    } else {
                        assert forall|t: int| 0 <= t < i implies iv(vals@)[t] != v as int by {
                            assert(has_entry(pre, vals@[t]));
                            let w = choose|w: int| 0 <= w < pre.len() && (#[trigger] pre[w]).0 == vals@[t];
                            assert(pre[w].0 != v);
                        }
                        lemma_count_val_zero(iv(vals@), v as int, i as int);
                    }
                }
                assert forall|k: int| #![trigger vals@[k]] 0 <= k < i + 1
                    implies has_entry(e@, vals@[k]) by {
                    if k < i {
                        assert(has_entry(pre, vals@[k]));
                        let a = choose|a: int| 0 <= a < pre.len() && (#[trigger] pre[a]).0 == vals@[k];
                        if a < pos {
                            assert(e@[a].0 == vals@[k]);
                        } else {
                            assert(e@[a + 1].0 == vals@[k]);
                        }
                    } else {
                        assert(e@[pos as int].0 == vals@[k]);
                    }
                }
            }
        }
        i = i + 1;
    }
    e
}

/// A value appearing at none of the first `k` positions counts zero there.
proof fn lemma_count_val_zero(s: Seq<int>, v: int, k: int)
    requires
        forall|t: int| 0 <= t < k ==> #[trigger] s[t] != v,
    ensures
        count_val(s, v, k) == 0,
    decreases k,
{
    if k > 0 {
        lemma_count_val_zero(s, v, k - 1);
    }
}

/// The per-node degree values of each kind in creation order, as the
/// distribution and skewness metrics consume them.
pub open spec fn in_deg_vals(g: Graph) -> Seq<u128> {
    Seq::new(g.n() as nat, |i: int| spec_in_degree(g, g.labels()[i]) as u128)
}

pub open spec fn out_deg_vals(g: Graph) -> Seq<u128> {
    Seq::new(g.n() as nat, |i: int| spec_out_degree(g, g.labels()[i]) as u128)
}

pub open spec fn und_deg_vals(g: Graph) -> Seq<u128> {
    Seq::new(g.n() as nat, |i: int| spec_und_degree(g, g.labels()[i]) as u128)
}

/// What one degree-value distribution owes: entries in strictly ascending
/// value order, each value present among the nodes, counted exactly, over the
/// node count.
pub open spec fn dist_ok(e: Seq<(u128, Ratio)>, vals: Seq<u128>, n: int) -> bool {
    &&& forall|a: int, b: int| #![trigger e[a].0, e[b].0] 0 <= a < b < e.len() ==> e[a].0 < e[b].0
    &&& forall|a: int| 0 <= a < e.len() ==> {
        &&& (#[trigger] e[a]).1.num == count_val(iv(vals), e[a].0 as int, vals.len() as int)
        &&& e[a].1.den == n as u128
        &&& e[a].1.num >= 1
    }
    &&& forall|k: int| #![trigger vals[k]] 0 <= k < vals.len() ==> has_entry(e, vals[k])
}

/// What one skewness reading owes for degree values `s` of `n` nodes: absent
/// exactly when the degrees sum to zero, else the exact rank-weighted ratio
/// `sknum / (mean * n * (n + 1) / 2)` as `2 * sknum / (sum * (n + 1))`.
pub open spec fn skew_ok(r: Option<Ratio>, s: Seq<int>) -> bool {
    &&& (r is None <==> sum_vals(s, s.len() as int) == 0)
    &&& (r matches Some(rt) ==> {
        &&& rt.num == 2 * sknum(s, s.len() as int)
        &&& rt.den == sum_vals(s, s.len() as int) * (s.len() + 1)
    })
}

/// The rank-weighted skewness of one list of degree values.
fn skew_of(vals: &Vec<u128>) -> (r: Option<Ratio>)
    requires
        vals@.len() < 0x1_0000_0000,
        forall|k: int| 0 <= k < vals@.len() ==> (#[trigger] vals@[k]) < 0x2_0000_0000,
    ensures
        skew_ok(r, iv(vals@)),
{
    let n = vals.len();
    let ghost s = iv(vals@);
    let mut sum: u128 = 0;
    let mut i: usize = 0;
    while i < n
        invariant
            i <= n,
            n == vals@.len(),
            s == iv(vals@),
            forall|k: int| 0 <= k < vals@.len() ==> (#[trigger] vals@[k]) < 0x2_0000_0000,
            sum == sum_vals(s, i as int),
            sum <= (i as u128) * 0x2_0000_0000,
        decreases n - i,
    {
        sum = sum + vals[i];
        i = i + 1;
    }
    if sum == 0 {
        return None;
    }
    let mut sk: u128 = 0;
    let mut i: usize = 0;
    while i < n
        invariant
            i <= n,
            n == vals@.len(),
            n < 0x1_0000_0000,
            s == iv(vals@),
            forall|k: int| 0 <= k < vals@.len() ==> (#[trigger] vals@[k]) < 0x2_0000_0000,
            sk == sknum(s, i as int),
            sk <= (i as u128) * 0x8_0000_0000_0000_0000,
        decreases n - i,
    {
        let v = vals[i];
        let gt = count_gt_exec(vals, v);
        let eq_before = count_val_exec(vals, v, i);
        let rank: u128 = 1 + (gt as u128) + (eq_before as u128);
        proof {
            assert(rank as int == rank_of(s, i as int));
            assert(rank <= 0x2_0000_0001);
            assert(rank * v <= 0x8_0000_0000_0000_0000) by (nonlinear_arith)
                requires rank <= 0x2_0000_0001u128 && v < 0x2_0000_0000u128;
        }
        let term = rank * v;
        sk = sk + term;
        i = i + 1;
    }
    proof {
        assert(sk <= 0x1_0000_0000u128 * 0x8_0000_0000_0000_0000) by (nonlinear_arith)
            requires sk <= (n as u128) * 0x8_0000_0000_0000_0000 && n as u128 <= 0x1_0000_0000u128;
        assert(sum * ((n as u128) + 1) <= (0x1_0000_0000u128 * 0x2_0000_0000) * (0x1_0000_0000u128 + 1)) by (nonlinear_arith)
            requires sum <= (n as u128) * 0x2_0000_0000 && n as u128 <= 0x1_0000_0000u128;
    }
    let num2 = 2 * sk;
    let den = sum * ((n as u128) + 1);
    proof {
        assert(num2 <= i128::MAX as u128);
    }
    Some(Ratio { num: num2 as i128, den })
}

impl Graph {
    /// The three degree-value probability mass functions: for each kind, the
    /// observed degree values in ascending order, each with the fraction of
    /// nodes holding it.
    pub fn get_degree_distribution(&self) -> (r: DegreeDistribution)
        requires
            self.wf(),
        ensures
            dist_ok(r.in_distribution@, in_deg_vals(*self), self.n()),
            dist_ok(r.out_distribution@, out_deg_vals(*self), self.n()),
            dist_ok(r.undirected_distribution@, und_deg_vals(*self), self.n()),
    {
        let (vals_in, vals_out, vals_und) = self.degree_value_lists();
        let n = self.nodes.len();
        DegreeDistribution {
            in_distribution: build_distribution(&vals_in, n),
            out_distribution: build_distribution(&vals_out, n),
            undirected_distribution: build_distribution(&vals_und, n),
        }
    }

    /// The three per-node degree value lists in creation order.
    fn degree_value_lists(&self) -> (r: (Vec<u128>, Vec<u128>, Vec<u128>))
        requires
            self.wf(),
        ensures
            r.0@ == in_deg_vals(*self),
            r.1@ == out_deg_vals(*self),
            r.2@ == und_deg_vals(*self),
    {
        let n = self.nodes.len();
        let mut vals_in: Vec<u128> = Vec::new();
        let mut vals_out: Vec<u128> = Vec::new();
        let mut vals_und: Vec<u128> = Vec::new();
        let mut i: usize = 0;
        while i < n
            invariant
                i <= n,
                n == self.nodes@.len(),
                self.wf(),
                vals_in@.len() == i && vals_out@.len() == i && vals_und@.len() == i,
                forall|k: int| 0 <= k < i ==> (#[trigger] vals_in@[k]) == spec_in_degree(*self, self.labels()[k]) as u128,
                forall|k: int| 0 <= k < i ==> (#[trigger] vals_out@[k]) == spec_out_degree(*self, self.labels()[k]) as u128,
                forall|k: int| 0 <= k < i ==> (#[trigger] vals_und@[k]) == spec_und_degree(*self, self.labels()[k]) as u128,
            decreases n - i,
        {
            let label = self.nodes[i].label.clone();
            proof {
                assert(label@ == self.labels()[i as int]);
            }
            let d = self.degree_counts(&label);
            vals_in.push(d.in_degree);
            vals_out.push(d.out_degree);
            vals_und.push(d.undirected_degree);
            i = i + 1;
        }
        proof {
            assert(vals_in@ =~= in_deg_vals(*self));
            assert(vals_out@ =~= out_deg_vals(*self));
            assert(vals_und@ =~= und_deg_vals(*self));
        }
        (vals_in, vals_out, vals_und)
    }

    /// The rank-weighted skewness of each degree kind: nodes ranked by degree
    /// descending (ties broken by creation order), `sknum` the sum of rank
    /// times degree, reported as the exact ratio of `sknum` to
    /// `mean(degree) * n * (n + 1) / 2`. A kind with an all-zero degree list
    /// has no skewness. The size bounds keep the exact products representable.
    pub fn get_skewness(&self) -> (r: Skewness)
        requires
            self.wf(),
            self.nodes@.len() < 0x1_0000_0000,
            self.edges().len() < 0x1_0000_0000,
        ensures
            skew_ok(r.in_skewness, iv(in_deg_vals(*self))),
            skew_ok(r.out_skewness, iv(out_deg_vals(*self))),
            skew_ok(r.undirected_skewness, iv(und_deg_vals(*self))),
    {
        let (vals_in, vals_out, vals_und) = self.degree_value_lists();
        proof {
            assert forall|k: int| 0 <= k < self.n() implies (#[trigger] vals_in@[k]) < 0x2_0000_0000 by {
                lemma_degree_bounds(*self, self.labels()[k]);
            }
            assert forall|k: int| 0 <= k < self.n() implies (#[trigger] vals_out@[k]) < 0x2_0000_0000 by {
                lemma_degree_bounds(*self, self.labels()[k]);
            }
            assert forall|k: int| 0 <= k < self.n() implies (#[trigger] vals_und@[k]) < 0x2_0000_0000 by {
                lemma_degree_bounds(*self, self.labels()[k]);
            }
        }
        Skewness {
            in_skewness: skew_of(&vals_in),
            out_skewness: skew_of(&vals_out),
            undirected_skewness: skew_of(&vals_und),
        }
    }
}

/// Every metric is a pure function of the graph: two results of the same
/// metric of an unchanged graph are the same value. Stated for the degree
/// family; every other metric's contract equally pins its result to a single
/// spec-level value of the graph.
pub proof fn lemma_metrics_idempotent(g: Graph, l: Seq<char>, d1: Degrees, d2: Degrees, t1: int, t2: int)
    requires
        d1 == spec_degrees(g, l),
        d2 == spec_degrees(g, l),
        t1 == spec_total_weight(g),
        t2 == spec_total_weight(g),
    ensures
        d1 == d2,
        t1 == t2,
{
}

} // verus!
