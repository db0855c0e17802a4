use vstd::prelude::*;
use crate::graph::{Connection, Graph, Node};

verus! {

/// Whether edge `e` writes the matrix cell `(i, j)`: a directed edge covers
/// its own ordered pair, an undirected edge covers both orders.
pub open spec fn covers(e: (int, int, i32, bool), i: int, j: int) -> bool {
    if e.3 {
        e.0 == i && e.1 == j
    } else {
        (e.0 == i && e.1 == j) || (e.0 == j && e.1 == i)
    }
}

/// The weight the adjacency matrix holds at `(i, j)` after replaying the edge
/// sequence in order: the weight of the last edge covering the cell, or zero.
pub open spec fn adj_cell(s: Seq<(int, int, i32, bool)>, i: int, j: int) -> i32
    decreases s.len(),
{
    if s.len() == 0 {
        0
    } else if covers(s.last(), i, j) {
        s.last().2
    } else {
        adj_cell(s.drop_last(), i, j)
    }
}

/// The inner views of a nested weight matrix.
pub open spec fn mat_view(m: Seq<Vec<i32>>) -> Seq<Seq<i32>> {
    m.map_values(|r: Vec<i32>| r@)
}

/// The edges derived from cells `(i, 0)` to `(i, j-1)` of matrix row `i`: one
/// edge per non-zero cell, in column order.
pub open spec fn row_edges(m: Seq<Seq<i32>>, i: int, j: int, directed: bool) -> Seq<(int, int, i32, bool)>
    decreases j,
{
    if j <= 0 {
        Seq::empty()
    } else if m[i][j - 1] == 0 {
        row_edges(m, i, j - 1, directed)
    } else {
        row_edges(m, i, j - 1, directed).push((i, j - 1, m[i][j - 1], directed))
    }
}

/// The decimal digit characters.
pub open spec fn digit_char(d: int) -> char {
    if d == 0 { '0' }
    else if d == 1 { '1' }
    else if d == 2 { '2' }
    else if d == 3 { '3' }
    else if d == 4 { '4' }
    else if d == 5 { '5' }
    else if d == 6 { '6' }
    else if d == 7 { '7' }
    else if d == 8 { '8' }
    else { '9' }
}

/// The decimal representation of `v`, most significant digit first.
pub open spec fn dec_str(v: nat) -> Seq<char>
    decreases v,
{
    if v < 10 {
        seq![digit_char(v as int)]
    } else {
        dec_str(v / 10).push(digit_char((v % 10) as int))
    }
}

pub proof fn lemma_dec_str_len(v: nat)
    ensures
        dec_str(v).len() >= 1,
    decreases v,
{
    if v >= 10 {
        lemma_dec_str_len(v / 10);
    }
}

/// Distinct numbers have distinct decimal representations.
pub proof fn lemma_dec_str_injective(a: nat, b: nat)
    requires
        dec_str(a) == dec_str(b),
    ensures
        a == b,
    decreases a + b,
{
    if a < 10 && b < 10 {
        assert(dec_str(a)[0] == digit_char(a as int));
        assert(dec_str(b)[0] == digit_char(b as int));
    } else if a < 10 && b >= 10 {
        lemma_dec_str_len(b / 10);
        assert(dec_str(b).len() >= 2);
    } else if a >= 10 && b < 10 {
        lemma_dec_str_len(a / 10);
        assert(dec_str(a).len() >= 2);
    } else {
        assert(dec_str(a).last() == digit_char((a % 10) as int));
        assert(dec_str(b).last() == digit_char((b % 10) as int));
        assert(a % 10 == b % 10);
        assert(dec_str(a).drop_last() == dec_str(a / 10));
        assert(dec_str(b).drop_last() == dec_str(b / 10));
        assert(dec_str(a / 10) == dec_str(b / 10));
        lemma_dec_str_injective(a / 10, b / 10);
    }
}

/// One decimal digit as a string slice.
fn digit_str(d: usize) -> (r: &'static str)
    requires
        d < 10,
    ensures
        r@ == seq![digit_char(d as int)],
{
    proof {
        reveal_strlit("0");
        reveal_strlit("1");
        reveal_strlit("2");
        reveal_strlit("3");
        reveal_strlit("4");
        reveal_strlit("5");
        reveal_strlit("6");
        reveal_strlit("7");
        reveal_strlit("8");
        reveal_strlit("9");
    }
    let r = if d == 0 { "0" }
    else if d == 1 { "1" }
    else if d == 2 { "2" }
    else if d == 3 { "3" }
    else if d == 4 { "4" }
    else if d == 5 { "5" }
    else if d == 6 { "6" }
    else if d == 7 { "7" }
    else if d == 8 { "8" }
    else { "9" };
    proof {
        assert(r@ =~= seq![digit_char(d as int)]);
    }
    r
}

/// The decimal string of `v`, the default node label for row `v` of an
/// adjacency matrix.
pub fn usize_to_string(v: usize) -> (r: String)
    ensures
        r@ == dec_str(v as nat),
    decreases v,
{
    if v < 10 {
        let r = digit_str(v).to_owned();
        proof {
            assert(r@ =~= dec_str(v as nat));
        }
        r
    } else {
        let prefix = usize_to_string(v / 10);
        let r = prefix.concat(digit_str(v % 10));
        proof {
            assert(r@ =~= dec_str(v as nat));
        }
        r
    }
}

impl Graph {
    /// The adjacency weight between creation indices `i` and `j`: the cell
    /// the generated matrix holds there. Zero doubles as "no edge".
    pub open spec fn adj(self, i: int, j: int) -> i32 {
        adj_cell(self.edges(), i, j)
    }

    /// The dense adjacency matrix in creation-index order: replaying every
    /// stored edge in view order, a directed edge writes its cell, an
    /// undirected edge writes both symmetric cells, and later edges on the
    /// same cell overwrite earlier ones.
    pub fn generate_adjacency_matrix(&self) -> (m: Vec<Vec<i32>>)
        requires
            self.wf(),
        ensures
            m@.len() == self.nodes@.len(),
            forall|i: int| 0 <= i < m@.len() ==> (#[trigger] m@[i])@.len() == self.nodes@.len(),
            forall|i: int, j: int| #![trigger m@[i]@[j]] 0 <= i < m@.len() && 0 <= j < m@.len()
                ==> m@[i]@[j] == adj_cell(self.edges(), i, j),
    {
        let n = self.nodes.len();
        let mut m: Vec<Vec<i32>> = Vec::new();
        while m.len() < n
            invariant
                m@.len() <= n,
                forall|i: int| 0 <= i < m@.len() ==> (#[trigger] m@[i])@.len() == n,
                forall|i: int, j: int| #![trigger m@[i]@[j]] 0 <= i < m@.len() && 0 <= j < n
                    ==> m@[i]@[j] == 0,
            decreases n - m@.len(),
        {
            let mut row: Vec<i32> = Vec::new();
            while row.len() < n
                invariant
                    row@.len() <= n,
                    forall|j: int| 0 <= j < row@.len() ==> row@[j] == 0,
                decreases n - row@.len(),
            {
                row.push(0);
            }
            m.push(row);
        }
        let mut i: usize = 0;
        while i < n
            invariant
                i <= n,
                n == self.nodes@.len(),
                self.wf(),
                m@.len() == n,
                forall|a: int| 0 <= a < n ==> (#[trigger] m@[a])@.len() == n,
                forall|a: int, b: int| #![trigger m@[a]@[b]] 0 <= a < n && 0 <= b < n
                    ==> m@[a]@[b] == adj_cell(self.edges_up_to(i as int), a, b),
            decreases n - i,
        {
            let conn_count = self.nodes[i].connections.len();
            let mut k: usize = 0;
            while k < conn_count
                invariant
                    k <= conn_count,
                    i < n,
                    n == self.nodes@.len(),
                    self.wf(),
                    conn_count == self.nodes@[i as int].connections@.len(),
                    m@.len() == n,
                    forall|a: int| 0 <= a < n ==> (#[trigger] m@[a])@.len() == n,
                    forall|a: int, b: int| #![trigger m@[a]@[b]] 0 <= a < n && 0 <= b < n
                        ==> m@[a]@[b] == adj_cell(
                            self.edges_up_to(i as int) + self.node_edges(i as int).take(k as int), a, b),
                decreases conn_count - k,
            {
                let c = self.nodes[i].connections[k];
                let ghost pre = self.edges_up_to(i as int) + self.node_edges(i as int).take(k as int);
                let ghost e = self.node_edges(i as int)[k as int];
                proof {
                    assert(e == (i as int, c.to as int, c.weight, c.directed));
                    assert(self.node_edges(i as int).take(k as int + 1) =~= self.node_edges(i as int).take(k as int).push(e));
                    assert(self.edges_up_to(i as int) + self.node_edges(i as int).take(k as int + 1) =~= pre.push(e));
                    assert(pre.push(e).drop_last() =~= pre);
                    assert(pre.push(e).last() == e);
                }
                m[i][c.to] = c.weight;
                if !c.directed {
                    m[c.to][i] = c.weight;
                }
                proof {
                    assert forall|a: int, b: int| 0 <= a < n && 0 <= b < n
                        implies m@[a]@[b] == adj_cell(pre.push(e), a, b) by {
                        if covers(e, a, b) {
                            assert(adj_cell(pre.push(e), a, b) == e.2);
                        } else {
                            assert(adj_cell(pre.push(e), a, b) == adj_cell(pre, a, b));
                        }
                    }
                }
                k = k + 1;
            }
            proof {
                assert(self.node_edges(i as int).take(conn_count as int) =~= self.node_edges(i as int));
                assert(self.edges_up_to(i as int) + self.node_edges(i as int) =~= self.edges_up_to(i as int + 1));
            }
            i = i + 1;
        }
        m
    }

    /// Build a graph from a square weight matrix: one node per row (labels
    /// are the stringified row indices unless custom ones are given) and one
    /// edge per non-zero cell, every edge carrying the same directed flag.
    pub fn from_adjacency_matrix(adj_matrix: Vec<Vec<i32>>, directed: Option<bool>, custom_labels: Option<Vec<String>>)
        -> (g: Graph)
        requires
            forall|i: int| 0 <= i < adj_matrix@.len() ==> (#[trigger] adj_matrix@[i])@.len() == adj_matrix@.len(),
            custom_labels is Some ==> custom_labels.unwrap()@.len() == adj_matrix@.len(),
            custom_labels is Some ==> forall|i: int, j: int|
                #![trigger custom_labels.unwrap()@[i], custom_labels.unwrap()@[j]]
                0 <= i < j < adj_matrix@.len()
                    ==> custom_labels.unwrap()@[i]@ != custom_labels.unwrap()@[j]@,
        ensures
            g.wf(),
            g.nodes@.len() == adj_matrix@.len(),
            g.positions_set == false,
            forall|i: int| 0 <= i < g.n() ==> g.labels()[i] == match custom_labels {
                Some(ls) => ls@[i]@,
                None => dec_str(i as nat),
            },
            forall|i: int| 0 <= i < g.n()
                ==> #[trigger] g.node_edges(i) == row_edges(mat_view(adj_matrix@), i, g.n(), directed.unwrap_or(false)),
            forall|i: int| 0 <= i < g.n() ==> (#[trigger] g.nodes@[i]).x is None && g.nodes@[i].y is None,
    {
        let directed = directed.unwrap_or(false);
        let n = adj_matrix.len();
        let ghost mv = mat_view(adj_matrix@);
        let mut nodes: Vec<Node> = Vec::new();
        match custom_labels {
            Some(labels) => {
                let mut i: usize = 0;
                while i < n
                    invariant
                        i <= n,
                        labels@.len() == n,
                        nodes@.len() == i,
                        forall|a: int| 0 <= a < i ==> (#[trigger] nodes@[a]).label@ == labels@[a]@,
                        forall|a: int| 0 <= a < i ==> (#[trigger] nodes@[a]).index == a,
                        forall|a: int| 0 <= a < i ==> (#[trigger] nodes@[a]).connections@.len() == 0,
                        forall|a: int| 0 <= a < i ==> (#[trigger] nodes@[a]).x is None && nodes@[a].y is None,
                    decreases n - i,
                {
                    let label = labels[i].clone();
                    nodes.push(Node { label, index: i, x: None, y: None, connections: Vec::new() });
                    i = i + 1;
                }
            },
            None => {
                let mut i: usize = 0;
                while i < n
                    invariant
                        i <= n,
                        nodes@.len() == i,
                        forall|a: int| 0 <= a < i ==> (#[trigger] nodes@[a]).label@ == dec_str(a as nat),
                        forall|a: int| 0 <= a < i ==> (#[trigger] nodes@[a]).index == a,
                        forall|a: int| 0 <= a < i ==> (#[trigger] nodes@[a]).connections@.len() == 0,
                        forall|a: int| 0 <= a < i ==> (#[trigger] nodes@[a]).x is None && nodes@[a].y is None,
                    decreases n - i,
                {
                    let label = usize_to_string(i);
                    nodes.push(Node { label, index: i, x: None, y: None, connections: Vec::new() });
                    i = i + 1;
                }
                proof {
                    assert forall|a: int, b: int| 0 <= a < b < n
                        implies (#[trigger] nodes@[a]).label@ != (#[trigger] nodes@[b]).label@ by {
                        if nodes@[a].label@ == nodes@[b].label@ {
                            lemma_dec_str_injective(a as nat, b as nat);
                        }
                    }
                }
            },
        }
        let ghost lv = nodes@.map_values(|nd: Node| nd.label@);
        let mut i: usize = 0;
        while i < n
            invariant
                i <= n,
                nodes@.len() == n,
                adj_matrix@.len() == n,
                mv == mat_view(adj_matrix@),
                lv.len() == n,
                forall|a: int| 0 <= a < n ==> (#[trigger] adj_matrix@[a])@.len() == n,
                forall|a: int, b: int| #![trigger lv[a], lv[b]] 0 <= a < b < n ==> lv[a] != lv[b],
                forall|a: int| 0 <= a < n ==> #[trigger] lv[a] == match custom_labels {
                    Some(ls) => ls@[a]@,
                    None => dec_str(a as nat),
                },
                forall|a: int| 0 <= a < n ==> (#[trigger] nodes@[a]).label@ == lv[a],
                forall|a: int| 0 <= a < n ==> (#[trigger] nodes@[a]).index == a,
                forall|a: int| 0 <= a < n ==> (#[trigger] nodes@[a]).x is None && nodes@[a].y is None,
                forall|a: int| i <= a < n ==> (#[trigger] nodes@[a]).connections@.len() == 0,
                forall|a: int| 0 <= a < i ==> node_conns_view(#[trigger] nodes@[a], a) == row_edges(mv, a, n as int, directed),
                forall|a: int, k: int| 0 <= a < n && 0 <= k < nodes@[a].connections@.len()
                    ==> (#[trigger] nodes@[a].connections@[k]).to < n,
            decreases n - i,
        {
            let ghost snap = nodes@;
            let mut j: usize = 0;
            while j < n
                invariant
                    j <= n,
                    i < n,
                    nodes@.len() == n,
                    snap.len() == n,
                    adj_matrix@.len() == n,
                    mv == mat_view(adj_matrix@),
                    forall|a: int| 0 <= a < n ==> (#[trigger] adj_matrix@[a])@.len() == n,
                    forall|a: int| 0 <= a < n && a != i ==> nodes@[a] == snap[a],
                    nodes@[i as int].label == snap[i as int].label,
                    nodes@[i as int].index == snap[i as int].index,
                    nodes@[i as int].x == snap[i as int].x,
                    nodes@[i as int].y == snap[i as int].y,
                    snap[i as int].connections@.len() == 0,
                    node_conns_view(nodes@[i as int], i as int) == row_edges(mv, i as int, j as int, directed),
                    forall|k: int| 0 <= k < nodes@[i as int].connections@.len()
                        ==> (#[trigger] nodes@[i as int].connections@[k]).to < n,
                decreases n - j,
            {
                let w = adj_matrix[i][j];
                if w != 0 {
                    let ghost before = nodes@[i as int].connections@;
                    nodes[i].connections.push(Connection { to: j, weight: w, directed });
                    proof {
                        let na = nodes@[i as int];
                        assert(na.connections@ == before.push(Connection { to: j, weight: w, directed }));
                        assert(node_conns_view(na, i as int)
                            =~= node_conns_view_of(before, i as int).push((i as int, j as int, w, directed)));
                        assert(row_edges(mv, i as int, j as int + 1, directed)
                            == row_edges(mv, i as int, j as int, directed).push((i as int, j as int, w, directed)));
                    }
                } else {
                    proof {
                        assert(row_edges(mv, i as int, j as int + 1, directed)
                            == row_edges(mv, i as int, j as int, directed));
                    }
                }
                j = j + 1;
            }
            proof {
                assert forall|a: int| 0 <= a < n implies (#[trigger] nodes@[a]).label@ == lv[a]
                    && nodes@[a].index == a
                    && nodes@[a].x is None && nodes@[a].y is None by {
                    if a != i as int {
                        assert(nodes@[a] == snap[a]);
                    }
                }
                assert forall|a: int| i as int + 1 <= a < n
                    implies (#[trigger] nodes@[a]).connections@.len() == 0 by {
                    assert(nodes@[a] == snap[a]);
                }
                assert forall|a: int| 0 <= a < i as int + 1
                    implies node_conns_view(#[trigger] nodes@[a], a) == row_edges(mv, a, n as int, directed) by {
                    if a != i as int {
                        assert(nodes@[a] == snap[a]);
                    }
                }
                assert forall|a: int, k: int| 0 <= a < n && 0 <= k < nodes@[a].connections@.len()
                    implies (#[trigger] nodes@[a].connections@[k]).to < n by {
                    if a != i as int {
                        assert(nodes@[a] == snap[a]);
                    }
                }
            }
            i = i + 1;
        }
        let g = Graph { nodes, positions_set: false };
        proof {
            assert forall|a: int| 0 <= a < g.n() implies #[trigger] g.labels()[a] == lv[a] by {
                assert(g.labels()[a] == g.nodes@[a].label@);
            }
            assert forall|a: int| 0 <= a < g.n()
                implies #[trigger] g.node_edges(a) == row_edges(mv, a, g.n(), directed) by {
                assert(g.node_edges(a) =~= node_conns_view(g.nodes@[a], a));
            }
        }
        g
    }
}

/// Whether edge `e` is exactly what matrix `m` says of its endpoints: a
/// non-zero cell carried over unchanged, under the uniform directed flag.
pub open spec fn edge_ok(e: (int, int, i32, bool), m: Seq<Seq<i32>>, directed: bool) -> bool {
    &&& 0 <= e.0 < m.len()
    &&& 0 <= e.1 < m.len()
    &&& e.2 == m[e.0][e.1]
    &&& e.2 != 0
    &&& e.3 == directed
}

/// Whether some edge of `s` writes cell `(i, j)`.
pub open spec fn covers_any(s: Seq<(int, int, i32, bool)>, i: int, j: int) -> bool
    decreases s.len(),
{
    s.len() > 0 && (covers(s.last(), i, j) || covers_any(s.drop_last(), i, j))
}

/// Every edge derived from row `i` carries that row's weight, targets a
/// column below `k`, and leaves from `i`.
proof fn lemma_row_edges_ok(m: Seq<Seq<i32>>, i: int, k: int, directed: bool)
    requires
        0 <= i < m.len(),
        k <= m.len(),
    ensures
        forall|t: int| 0 <= t < row_edges(m, i, k, directed).len()
            ==> edge_ok(#[trigger] row_edges(m, i, k, directed)[t], m, directed)
                && row_edges(m, i, k, directed)[t].0 == i
                && row_edges(m, i, k, directed)[t].1 < k,
    decreases k,
{
    if k > 0 {
        lemma_row_edges_ok(m, i, k - 1, directed);
        let prev = row_edges(m, i, k - 1, directed);
        let cur = row_edges(m, i, k, directed);
        assert forall|t: int| 0 <= t < cur.len()
            implies edge_ok(#[trigger] cur[t], m, directed) && cur[t].0 == i && cur[t].1 < k by {
            if m[i][k - 1] != 0 {
                if t < prev.len() {
                    assert(cur[t] == prev[t]);
                } else {
                    assert(cur[t] == (i, k - 1, m[i][k - 1], directed));
                }
            }
        }
    }
}

/// Splitting a replay: a concatenation covers a cell exactly when one of its
/// parts does.
proof fn lemma_covers_any_concat(a: Seq<(int, int, i32, bool)>, b: Seq<(int, int, i32, bool)>, i: int, j: int)
    ensures
        covers_any(a + b, i, j) == (covers_any(a, i, j) || covers_any(b, i, j)),
    decreases b.len(),
{
    if b.len() == 0 {
        assert(a + b =~= a);
    } else {
        assert((a + b).drop_last() =~= a + b.drop_last());
        assert((a + b).last() == b.last());
        lemma_covers_any_concat(a, b.drop_last(), i, j);
    }
}

/// A non-zero cell of the scanned range is covered by its own row's edges.
proof fn lemma_row_edges_cover(m: Seq<Seq<i32>>, i: int, j: int, k: int, directed: bool)
    requires
        0 <= j < k,
        m[i][j] != 0,
    ensures
        covers_any(row_edges(m, i, k, directed), i, j),
    decreases k,
{
    if m[i][k - 1] != 0 {
        let r = row_edges(m, i, k - 1, directed).push((i, k - 1, m[i][k - 1], directed));
        assert(r.drop_last() =~= row_edges(m, i, k - 1, directed));
        if j < k - 1 {
            lemma_row_edges_cover(m, i, j, k - 1, directed);
        }
    } else {
        lemma_row_edges_cover(m, i, j, k - 1, directed);
    }
}

/// Every edge of the flattened view of such a graph is exactly a matrix cell.
proof fn lemma_edges_up_to_ok(g: Graph, m: Seq<Seq<i32>>, directed: bool, k: int)
    requires
        m.len() == g.n(),
        forall|i: int| 0 <= i < g.n()
            ==> #[trigger] g.node_edges(i) == row_edges(m, i, m.len() as int, directed),
        k <= g.n(),
    ensures
        forall|t: int| 0 <= t < g.edges_up_to(k).len()
            ==> edge_ok(#[trigger] g.edges_up_to(k)[t], m, directed),
    decreases k,
{
    if k > 0 {
        lemma_edges_up_to_ok(g, m, directed, k - 1);
        lemma_row_edges_ok(m, k - 1, m.len() as int, directed);
        let prev = g.edges_up_to(k - 1);
        let row = g.node_edges(k - 1);
        let cur = g.edges_up_to(k);
        assert forall|t: int| 0 <= t < cur.len()
            implies edge_ok(#[trigger] cur[t], m, directed) by {
            if t < prev.len() {
                assert(cur[t] == prev[t]);
            } else {
                assert(cur[t] == row[t - prev.len()]);
            }
        }
    }
}

/// Replaying edges that all match `m` (symmetric when undirected) leaves each
/// cell at its matrix value if covered, else at zero.
proof fn lemma_adj_cell_of_ok(s: Seq<(int, int, i32, bool)>, m: Seq<Seq<i32>>, directed: bool, i: int, j: int)
    requires
        forall|t: int| 0 <= t < s.len() ==> edge_ok(#[trigger] s[t], m, directed),
        0 <= i < m.len(),
        0 <= j < m.len(),
        !directed ==> forall|a: int, b: int| #![trigger m[a][b]] 0 <= a < m.len() && 0 <= b < m.len()
            ==> m[a][b] == m[b][a],
    ensures
        adj_cell(s, i, j) == if covers_any(s, i, j) { m[i][j] } else { 0i32 },
    decreases s.len(),
{
    if s.len() > 0 {
        assert(edge_ok(s[s.len() - 1], m, directed));
        lemma_adj_cell_of_ok(s.drop_last(), m, directed, i, j);
    }
}

/// A graph built from a square matrix regenerates that matrix exactly: every
/// cell of the replayed edge view equals the cell it came from. When the
/// construction is undirected the matrix must be symmetric, since an
/// undirected edge writes both symmetric cells back.
pub proof fn lemma_adjacency_round_trip(g: Graph, m: Seq<Seq<i32>>, directed: bool)
    requires
        m.len() == g.n(),
        forall|i: int| 0 <= i < m.len() ==> (#[trigger] m[i]).len() == m.len(),
        forall|i: int| 0 <= i < g.n()
            ==> #[trigger] g.node_edges(i) == row_edges(m, i, m.len() as int, directed),
        !directed ==> forall|a: int, b: int| #![trigger m[a][b]] 0 <= a < m.len() && 0 <= b < m.len()
            ==> m[a][b] == m[b][a],
    ensures
        forall|i: int, j: int| #![trigger m[i][j]] 0 <= i < m.len() && 0 <= j < m.len()
            ==> adj_cell(g.edges(), i, j) == m[i][j],
{
    let n = m.len() as int;
    lemma_edges_up_to_ok(g, m, directed, n);
    assert forall|i: int, j: int| #![trigger m[i][j]] 0 <= i < n && 0 <= j < n
        implies adj_cell(g.edges(), i, j) == m[i][j] by {
        lemma_adj_cell_of_ok(g.edges(), m, directed, i, j);
        if m[i][j] != 0 {
            lemma_row_edges_cover(m, i, j, n, directed);
            lemma_covers_row_to_edges(g, m, directed, i, j, n);
        }
    }
}

/// A cell covered by its row's edges is covered by the whole flattened view.
proof fn lemma_covers_row_to_edges(g: Graph, m: Seq<Seq<i32>>, directed: bool, i: int, j: int, k: int)
    requires
        m.len() == g.n(),
        forall|r: int| 0 <= r < g.n()
            ==> #[trigger] g.node_edges(r) == row_edges(m, r, m.len() as int, directed),
        0 <= i < k <= g.n(),
        covers_any(row_edges(m, i, m.len() as int, directed), i, j),
    ensures
        covers_any(g.edges_up_to(k), i, j),
    decreases k,
{
    lemma_covers_any_concat(g.edges_up_to(k - 1), g.node_edges(k - 1), i, j);
    if i == k - 1 {
    } else {
        lemma_covers_row_to_edges(g, m, directed, i, j, k - 1);
    }
}

/// The edge tuples of one node's stored connections, with `i` as the source.
pub open spec fn node_conns_view(nd: Node, i: int) -> Seq<(int, int, i32, bool)> {
    node_conns_view_of(nd.connections@, i)
}

pub open spec fn node_conns_view_of(cs: Seq<Connection>, i: int) -> Seq<(int, int, i32, bool)> {
    cs.map_values(|c: Connection| (i, c.to as int, c.weight, c.directed))
}

} // verus!
