use vstd::prelude::*;
use crate::graph::Graph;
use crate::GraphError;

verus! {

/// How many entries of a visited map are still false.
pub open spec fn count_unvisited(vis: Seq<bool>) -> int
    decreases vis.len(),
{
    if vis.len() == 0 {
        0
    } else {
        count_unvisited(vis.drop_last()) + if vis.last() { 0int } else { 1int }
    }
}

pub proof fn lemma_count_unvisited_nonneg(vis: Seq<bool>)
    ensures
        0 <= count_unvisited(vis) <= vis.len(),
    decreases vis.len(),
{
    if vis.len() > 0 {
        lemma_count_unvisited_nonneg(vis.drop_last());
    }
}

/// Marking an unvisited entry lowers the count by one.
pub proof fn lemma_count_unvisited_update(vis: Seq<bool>, v: int)
    requires
        0 <= v < vis.len(),
        !vis[v],
    ensures
        count_unvisited(vis.update(v, true)) == count_unvisited(vis) - 1,
    decreases vis.len(),
{
    let upd = vis.update(v, true);
    if v == vis.len() - 1 {
        assert(upd.drop_last() =~= vis.drop_last());
    } else {
        assert(upd.drop_last() =~= vis.drop_last().update(v, true));
        lemma_count_unvisited_update(vis.drop_last(), v);
    }
}

/// The neighbor columns of `v` within `[lo, hi)`, largest first: the order a
/// depth-first search pushes them so the smallest is expanded first.
pub open spec fn nbrs_desc(g: Graph, v: int, lo: int, hi: int) -> Seq<int>
    decreases hi - lo,
{
    if hi <= lo {
        Seq::empty()
    } else if g.adj(v, hi - 1) != 0 {
        seq![hi - 1] + nbrs_desc(g, v, lo, hi - 1)
    } else {
        nbrs_desc(g, v, lo, hi - 1)
    }
}

/// Lowering the bottom bound of the scanned column range appends the extra
/// column, if connected, at the end of the descending neighbor list.
pub proof fn lemma_nbrs_desc_step(g: Graph, v: int, lo: int, hi: int)
    requires
        lo <= hi,
    ensures
        nbrs_desc(g, v, lo - 1, hi) == nbrs_desc(g, v, lo, hi)
            + if g.adj(v, lo - 1) != 0 { seq![lo - 1] } else { Seq::<int>::empty() },
    decreases hi - lo,
{
    let tail: Seq<int> = if g.adj(v, lo - 1) != 0 { seq![lo - 1] } else { Seq::empty() };
    if lo == hi {
        assert(nbrs_desc(g, v, lo - 1, lo - 1) =~= Seq::<int>::empty());
        assert(nbrs_desc(g, v, lo - 1, hi) =~= tail);
        assert(nbrs_desc(g, v, lo, hi) + tail =~= tail);
    } else {
        lemma_nbrs_desc_step(g, v, lo, hi - 1);
        if g.adj(v, hi - 1) != 0 {
            assert(nbrs_desc(g, v, lo - 1, hi) =~= seq![hi - 1] + nbrs_desc(g, v, lo - 1, hi - 1));
            assert(nbrs_desc(g, v, lo, hi) =~= seq![hi - 1] + nbrs_desc(g, v, lo, hi - 1));
            assert(seq![hi - 1] + (nbrs_desc(g, v, lo, hi - 1) + tail)
                =~= (seq![hi - 1] + nbrs_desc(g, v, lo, hi - 1)) + tail);
        }
        assert(nbrs_desc(g, v, lo - 1, hi) =~= nbrs_desc(g, v, lo, hi) + tail);
    }
}

/// The order a depth-first search emits node indices, starting from the given
/// stack: the top of the stack is popped; an index already visited is
/// dropped, otherwise it is emitted, marked, and its neighbor columns are
/// pushed largest-first so the first-created neighbor is expanded next.
pub open spec fn dfs_rec(g: Graph, stack: Seq<int>, vis: Seq<bool>, order: Seq<int>) -> Seq<int>
    decreases count_unvisited(vis), stack.len()
        via dfs_rec_dec
{
    if stack.len() == 0 {
        order
    } else {
        let v = stack.last();
        let rest = stack.drop_last();
        if v < 0 || v >= vis.len() || vis[v] {
            dfs_rec(g, rest, vis, order)
        } else {
            dfs_rec(g, rest + nbrs_desc(g, v, 0, g.n()), vis.update(v, true), order.push(v))
        }
    }
}

#[via_fn]
proof fn dfs_rec_dec(g: Graph, stack: Seq<int>, vis: Seq<bool>, order: Seq<int>) {
    lemma_count_unvisited_nonneg(vis);
    if stack.len() > 0 {
        let v = stack.last();
        if !(v < 0 || v >= vis.len() || vis[v]) {
            lemma_count_unvisited_update(vis, v);
            lemma_count_unvisited_nonneg(vis.update(v, true));
        }
    }
}

/// The visit order of a depth-first search from start index `s`.
pub open spec fn spec_dfs(g: Graph, s: int) -> Seq<int> {
    dfs_rec(g, seq![s], Seq::new(g.n() as nat, |i: int| false), Seq::empty())
}

/// The integer views of a sequence of indices.
pub open spec fn idxs(s: Seq<usize>) -> Seq<int> {
    s.map_values(|x: usize| x as int)
}

impl Graph {
    /// Iterative depth-first traversal from the node labeled `start`,
    /// matching the visit order of a naive recursive search: neighbors are
    /// pushed in reverse creation order and an index is marked visited only
    /// when popped. Returns the visited labels in visit order.
    pub fn dfs(&self, start: &String) -> (r: Result<Vec<String>, GraphError>)
        requires
            self.wf(),
        ensures
            r is Err <==> !self.has_label(start@),
            r is Err ==> r == Err::<Vec<String>, GraphError>(GraphError::StartNodeNotFound),
            r is Ok ==> {
                let order = spec_dfs(*self, self.index_of(start@));
                &&& r.unwrap()@.len() == order.len()
                &&& forall|k: int| 0 <= k < order.len()
                    ==> #[trigger] r.unwrap()@[k]@ == self.labels()[order[k]]
            },
    {
        let s = match self.find_node_index(start) {
            Some(i) => i,
            None => {
                return Err(GraphError::StartNodeNotFound);
            },
        };
        proof {
            assert(s as int == self.index_of(start@));
        }
        let n = self.nodes.len();
        let m = self.generate_adjacency_matrix();
        let mut visited: Vec<bool> = Vec::new();
        while visited.len() < n
            invariant
                visited@.len() <= n,
                forall|k: int| 0 <= k < visited@.len() ==> !(#[trigger] visited@[k]),
            decreases n - visited@.len(),
        {
            visited.push(false);
        }
        proof {
            assert(visited@ =~= Seq::new(self.n() as nat, |i: int| false));
        }
        let mut stack: Vec<usize> = Vec::new();
        stack.push(s);
        let mut order: Vec<String> = Vec::new();
        let ghost mut order_idx: Seq<int> = Seq::empty();
        proof {
            assert(idxs(stack@) =~= seq![s as int]);
            lemma_count_unvisited_nonneg(visited@);
        }
        while stack.len() > 0
            invariant
                self.wf(),
                n == self.nodes@.len(),
                visited@.len() == n,
                m@.len() == n,
                forall|a: int| 0 <= a < n ==> (#[trigger] m@[a])@.len() == n,
                forall|a: int, b: int| #![trigger m@[a]@[b]] 0 <= a < n && 0 <= b < n
                    ==> m@[a]@[b] == self.adj(a, b),
                forall|k: int| 0 <= k < stack@.len() ==> (#[trigger] stack@[k]) < n,
                count_unvisited(visited@) >= 0,
                order@.len() == order_idx.len(),
                forall|k: int| 0 <= k < order_idx.len()
                    ==> 0 <= #[trigger] order_idx[k] < n,
                forall|k: int| 0 <= k < order_idx.len()
                    ==> #[trigger] order@[k]@ == self.labels()[order_idx[k]],
                dfs_rec(*self, idxs(stack@), visited@, order_idx) == spec_dfs(*self, s as int),
            decreases count_unvisited(visited@), stack@.len(),
        {
            proof {
                lemma_count_unvisited_nonneg(visited@);
            }
            let ghost pre_stack = idxs(stack@);
            let v = stack.pop().unwrap();
            proof {
                assert(pre_stack.last() == v as int);
                assert(idxs(stack@) =~= pre_stack.drop_last());
            }
            if visited[v] {
                proof {
                    assert(dfs_rec(*self, pre_stack, visited@, order_idx)
                        == dfs_rec(*self, idxs(stack@), visited@, order_idx));
                }
            } else {
                let ghost pre_vis = visited@;
                let ghost pre_order = order_idx;
                visited.set(v, true);
                order.push(self.nodes[v].label.clone());
                proof {
                    lemma_count_unvisited_update(pre_vis, v as int);
                    lemma_count_unvisited_nonneg(visited@);
                    assert(self.labels()[v as int] == self.nodes@[v as int].label@);
                    order_idx = order_idx.push(v as int);
                }
                let ghost base = idxs(stack@);
                proof {
                    assert(base + nbrs_desc(*self, v as int, n as int, n as int) =~= base);
                }
                let mut j: usize = n;
                while j > 0
                    invariant
                        j <= n,
                        self.wf(),
                        n == self.nodes@.len(),
                        m@.len() == n,
                        v < n,
                        forall|a: int| 0 <= a < n ==> (#[trigger] m@[a])@.len() == n,
                        forall|a: int, b: int| #![trigger m@[a]@[b]] 0 <= a < n && 0 <= b < n
                            ==> m@[a]@[b] == self.adj(a, b),
                        forall|k: int| 0 <= k < stack@.len() ==> (#[trigger] stack@[k]) < n,
                        idxs(stack@) == base + nbrs_desc(*self, v as int, j as int, n as int),
                    decreases j,
                {
                    j = j - 1;
                    proof {
                        lemma_nbrs_desc_step(*self, v as int, j as int + 1, n as int);
                    }
                    if m[v][j] != 0 {
                        stack.push(j);
                        proof {
                            assert(idxs(stack@) =~= (base + nbrs_desc(*self, v as int, j as int + 1, n as int)).push(j as int));
                            assert(idxs(stack@) =~= base + nbrs_desc(*self, v as int, j as int, n as int));
                        }
                    } else {
                        proof {
                            assert(idxs(stack@) =~= base + nbrs_desc(*self, v as int, j as int, n as int));
                        }
                    }
                }
                proof {
                    assert(visited@ =~= pre_vis.update(v as int, true));
                    assert(dfs_rec(*self, pre_stack, pre_vis, pre_order)
                        == dfs_rec(*self, base + nbrs_desc(*self, v as int, 0, n as int), visited@, order_idx));
                }
            }
        }
        proof {
            assert(dfs_rec(*self, idxs(stack@), visited@, order_idx) == order_idx);
        }
        Ok(order)
    }
}

/// Enqueue the unvisited neighbor columns of `v` below `k`, in ascending
/// order, marking each one visited the moment it is enqueued.
pub open spec fn enq_nbrs(g: Graph, v: int, k: int, queue: Seq<int>, vis: Seq<bool>) -> (Seq<int>, Seq<bool>)
    decreases k,
{
    if k <= 0 {
        (queue, vis)
    } else {
        let qv = enq_nbrs(g, v, k - 1, queue, vis);
        if g.adj(v, k - 1) != 0 && 0 <= k - 1 < qv.1.len() && !qv.1[k - 1] {
            (qv.0.push(k - 1), qv.1.update(k - 1, true))
        } else {
            qv
        }
    }
}

/// Enqueuing keeps the visited map's length, keeps the sum of queue length
/// and unvisited count, extends the queue by columns below `k`, and only
/// marks entries visited.
pub proof fn lemma_enq_nbrs(g: Graph, v: int, k: int, queue: Seq<int>, vis: Seq<bool>)
    ensures
        enq_nbrs(g, v, k, queue, vis).1.len() == vis.len(),
        count_unvisited(enq_nbrs(g, v, k, queue, vis).1) + enq_nbrs(g, v, k, queue, vis).0.len()
            == count_unvisited(vis) + queue.len(),
        enq_nbrs(g, v, k, queue, vis).0.len() >= queue.len(),
        forall|j: int| 0 <= j < queue.len() ==> #[trigger] enq_nbrs(g, v, k, queue, vis).0[j] == queue[j],
        forall|j: int| queue.len() <= j < enq_nbrs(g, v, k, queue, vis).0.len()
            ==> 0 <= #[trigger] enq_nbrs(g, v, k, queue, vis).0[j] < k,
    decreases k,
{
    if k > 0 {
        lemma_enq_nbrs(g, v, k - 1, queue, vis);
        let qv = enq_nbrs(g, v, k - 1, queue, vis);
        if g.adj(v, k - 1) != 0 && 0 <= k - 1 < qv.1.len() && !qv.1[k - 1] {
            lemma_count_unvisited_update(qv.1, k - 1);
        }
    }
}

/// The order a breadth-first search emits node indices: the head of the queue
/// is emitted, and its not-yet-visited neighbors are enqueued in creation
/// order, each marked visited as it joins the queue.
pub open spec fn bfs_rec(g: Graph, queue: Seq<int>, vis: Seq<bool>, order: Seq<int>) -> Seq<int>
    decreases count_unvisited(vis) + queue.len()
        via bfs_rec_dec
{
    if queue.len() == 0 {
        order
    } else {
        let v = queue.first();
        let rest = queue.drop_first();
        if v < 0 || v >= vis.len() {
            bfs_rec(g, rest, vis, order)
        } else {
            let qv = enq_nbrs(g, v, g.n(), rest, vis);
            bfs_rec(g, qv.0, qv.1, order.push(v))
        }
    }
}

#[via_fn]
proof fn bfs_rec_dec(g: Graph, queue: Seq<int>, vis: Seq<bool>, order: Seq<int>) {
    lemma_count_unvisited_nonneg(vis);
    if queue.len() > 0 {
        let v = queue.first();
        let rest = queue.drop_first();
        if !(v < 0 || v >= vis.len()) {
            lemma_enq_nbrs(g, v, g.n(), rest, vis);
            lemma_count_unvisited_nonneg(enq_nbrs(g, v, g.n(), rest, vis).1);
        }
    }
}

/// The visit order of a breadth-first search from start index `s`, which is
/// marked visited as it is enqueued.
pub open spec fn spec_bfs(g: Graph, s: int) -> Seq<int> {
    bfs_rec(g, seq![s], Seq::new(g.n() as nat, |i: int| false).update(s, true), Seq::empty())
}

impl Graph {
    /// Queue-based breadth-first traversal from the node labeled `start`:
    /// level order, neighbors in creation order, a node marked visited when
    /// enqueued so it is never enqueued twice. Returns the visited labels.
    pub fn bfs(&self, start: &String) -> (r: Result<Vec<String>, GraphError>)
        requires
            self.wf(),
        ensures
            r is Err <==> !self.has_label(start@),
            r is Err ==> r == Err::<Vec<String>, GraphError>(GraphError::StartNodeNotFound),
            r is Ok ==> {
                let order = spec_bfs(*self, self.index_of(start@));
                &&& r.unwrap()@.len() == order.len()
                &&& forall|k: int| 0 <= k < order.len()
                    ==> #[trigger] r.unwrap()@[k]@ == self.labels()[order[k]]
            },
    {
        let s = match self.find_node_index(start) {
            Some(i) => i,
            None => {
                return Err(GraphError::StartNodeNotFound);
            },
        };
        proof {
            assert(s as int == self.index_of(start@));
        }
        let n = self.nodes.len();
        let m = self.generate_adjacency_matrix();
        let mut visited: Vec<bool> = Vec::new();
        while visited.len() < n
            invariant
                visited@.len() <= n,
                forall|k: int| 0 <= k < visited@.len() ==> !(#[trigger] visited@[k]),
            decreases n - visited@.len(),
        {
            visited.push(false);
        }
        visited.set(s, true);
        proof {
            assert(visited@ =~= Seq::new(self.n() as nat, |i: int| false).update(s as int, true));
        }
        let mut queue: Vec<usize> = Vec::new();
        queue.push(s);
        let mut order: Vec<String> = Vec::new();
        let ghost mut order_idx: Seq<int> = Seq::empty();
        proof {
            assert(idxs(queue@) =~= seq![s as int]);
            lemma_count_unvisited_nonneg(visited@);
        }
        while queue.len() > 0
            invariant
                self.wf(),
                n == self.nodes@.len(),
                visited@.len() == n,
                m@.len() == n,
                forall|a: int| 0 <= a < n ==> (#[trigger] m@[a])@.len() == n,
                forall|a: int, b: int| #![trigger m@[a]@[b]] 0 <= a < n && 0 <= b < n
                    ==> m@[a]@[b] == self.adj(a, b),
                forall|k: int| 0 <= k < queue@.len() ==> (#[trigger] queue@[k]) < n,
                count_unvisited(visited@) >= 0,
                order@.len() == order_idx.len(),
                forall|k: int| 0 <= k < order_idx.len()
                    ==> 0 <= #[trigger] order_idx[k] < n,
                forall|k: int| 0 <= k < order_idx.len()
                    ==> #[trigger] order@[k]@ == self.labels()[order_idx[k]],
                bfs_rec(*self, idxs(queue@), visited@, order_idx) == spec_bfs(*self, s as int),
            decreases count_unvisited(visited@) + queue@.len(),
        {
            let ghost pre_q = idxs(queue@);
            let ghost pre_vis = visited@;
            let v = queue.remove(0);
            proof {
                assert(pre_q.first() == v as int);
                assert(idxs(queue@) =~= pre_q.drop_first());
            }
            order.push(self.nodes[v].label.clone());
            proof {
                assert(self.labels()[v as int] == self.nodes@[v as int].label@);
                order_idx = order_idx.push(v as int);
            }
            let ghost rest = idxs(queue@);
            let mut j: usize = 0;
            while j < n
                invariant
                    j <= n,
                    self.wf(),
                    n == self.nodes@.len(),
                    m@.len() == n,
                    v < n,
                    visited@.len() == n,
                    rest.len() <= queue@.len(),
                    forall|a: int| 0 <= a < n ==> (#[trigger] m@[a])@.len() == n,
                    forall|a: int, b: int| #![trigger m@[a]@[b]] 0 <= a < n && 0 <= b < n
                        ==> m@[a]@[b] == self.adj(a, b),
                    forall|k: int| 0 <= k < queue@.len() ==> (#[trigger] queue@[k]) < n,
                    idxs(queue@) == enq_nbrs(*self, v as int, j as int, rest, pre_vis).0,
                    visited@ == enq_nbrs(*self, v as int, j as int, rest, pre_vis).1,
                decreases n - j,
            {
                if m[v][j] != 0 && !visited[j] {
                    visited.set(j, true);
                    queue.push(j);
                    proof {
                        assert(idxs(queue@) =~= enq_nbrs(*self, v as int, j as int, rest, pre_vis).0.push(j as int));
                    }
                }
                j = j + 1;
            }
            proof {
                lemma_enq_nbrs(*self, v as int, n as int, rest, pre_vis);
                lemma_count_unvisited_nonneg(visited@);
                assert(order_idx.drop_last().push(v as int) =~= order_idx);
                assert(bfs_rec(*self, pre_q, pre_vis, order_idx.drop_last())
                    == bfs_rec(*self, idxs(queue@), visited@, order_idx));
            }
        }
        proof {
            assert(bfs_rec(*self, idxs(queue@), visited@, order_idx) == order_idx);
        }
        Ok(order)
    }
}

/// "Less than" on tentative distances, an absent distance meaning infinity.
pub open spec fn dist_lt(a: Option<int>, b: Option<int>) -> bool {
    match a {
        None => false,
        Some(x) => match b {
            None => true,
            Some(y) => x < y,
        },
    }
}

/// The unvisited index with the smallest tentative distance among the first
/// `k`, ties broken toward the lowest creation index; -1 when none is left.
pub open spec fn pick_min(dist: Seq<Option<int>>, vis: Seq<bool>, k: int) -> int
    decreases k,
{
    if k <= 0 {
        -1
    } else {
        let rest = pick_min(dist, vis, k - 1);
        if k - 1 < vis.len() && !vis[k - 1] {
            if rest == -1 {
                k - 1
            } else if dist_lt(dist[k - 1], dist[rest]) {
                k - 1
            } else {
                rest
            }
        } else {
            rest
        }
    }
}

/// What `pick_min` returns: -1, or an unvisited index below `k`.
pub proof fn lemma_pick_min_props(dist: Seq<Option<int>>, vis: Seq<bool>, k: int)
    ensures
        pick_min(dist, vis, k) == -1
            || (0 <= pick_min(dist, vis, k) < k
                && pick_min(dist, vis, k) < vis.len()
                && !vis[pick_min(dist, vis, k)]),
    decreases k,
{
    if k > 0 {
        lemma_pick_min_props(dist, vis, k - 1);
    }
}

/// One relaxation pass from `u` at finite distance `du`: every unvisited
/// column below `k` joined to `u` by a non-zero weight is offered `du` plus
/// that weight and keeps the smaller tentative distance.
pub open spec fn relax(g: Graph, u: int, du: int, k: int, dist: Seq<Option<int>>, vis: Seq<bool>) -> Seq<Option<int>>
    decreases k,
{
    if k <= 0 {
        dist
    } else {
        let d = relax(g, u, du, k - 1, dist, vis);
        let w = g.adj(u, k - 1) as int;
        if w != 0 && 0 <= k - 1 < vis.len() && k - 1 < d.len() && !vis[k - 1]
            && dist_lt(Some(du + w), d[k - 1]) {
            d.update(k - 1, Some(du + w))
        } else {
            d
        }
    }
}

/// The distance map after `t` rounds of the dense single-source shortest-path
/// sweep: each round visits the unvisited index of least tentative distance
/// and, when that distance is finite, relaxes its unvisited neighbors.
pub open spec fn dij_loop(g: Graph, dist: Seq<Option<int>>, vis: Seq<bool>, t: int) -> Seq<Option<int>>
    decreases t,
{
    if t <= 0 {
        dist
    } else {
        let u = pick_min(dist, vis, g.n());
        if u == -1 {
            dist
        } else {
            let vis2 = vis.update(u, true);
            let dist2 = match dist[u] {
                None => dist,
                Some(du) => relax(g, u, du, g.n(), dist, vis2),
            };
            dij_loop(g, dist2, vis2, t - 1)
        }
    }
}

/// The initial tentative distances: zero at the start index, infinity
/// elsewhere.
pub open spec fn init_dist(g: Graph, s: int) -> Seq<Option<int>> {
    Seq::new(g.n() as nat, |i: int| if i == s { Some(0int) } else { None })
}

/// The initial visited map: nothing visited.
pub open spec fn init_vis(g: Graph) -> Seq<bool> {
    Seq::new(g.n() as nat, |i: int| false)
}

/// The tentative-distance map the dense sweep leaves after `n` rounds from
/// start index `s`.
pub open spec fn spec_dijkstra(g: Graph, s: int) -> Seq<Option<int>> {
    dij_loop(g, init_dist(g, s), init_vis(g), g.n())
}

/// The mathematical view of one held distance.
pub open spec fn oview(o: Option<i128>) -> Option<int> {
    match o {
        None => None,
        Some(x) => Some(x as int),
    }
}

/// The mathematical view of the held distance map.
pub open spec fn dists_view(s: Seq<Option<i128>>) -> Seq<Option<int>> {
    s.map_values(|o: Option<i128>| oview(o))
}

/// Compare two held distances, an absent one counting as infinity.
fn lt_dist(a: &Option<i128>, b: &Option<i128>) -> (r: bool)
    ensures
        r == dist_lt(oview(*a), oview(*b)),
{
    match a {
        None => false,
        Some(x) => match b {
            None => true,
            Some(y) => *x < *y,
        },
    }
}

impl Graph {
    /// Dense single-source shortest paths from the node labeled `start`:
    /// distances start at zero for `start` and infinity (`None`) elsewhere;
    /// `n` times, the unvisited node of least tentative distance (ties to the
    /// lowest creation index) is visited and its unvisited neighbors over
    /// non-zero matrix entries are relaxed. Returns every label with its
    /// final distance in creation order; `None` marks an unreachable node.
    pub fn dijkstra(&self, start: &String) -> (r: Result<Vec<(String, Option<i128>)>, GraphError>)
        requires
            self.wf(),
        ensures
            r is Err <==> !self.has_label(start@),
            r is Err ==> r == Err::<Vec<(String, Option<i128>)>, GraphError>(GraphError::StartNodeNotFound),
            r is Ok ==> {
                let dists = spec_dijkstra(*self, self.index_of(start@));
                &&& r.unwrap()@.len() == self.nodes@.len()
                &&& forall|i: int| 0 <= i < self.nodes@.len()
                    ==> (#[trigger] r.unwrap()@[i]).0@ == self.labels()[i]
                &&& forall|i: int| 0 <= i < self.nodes@.len()
                    ==> oview((#[trigger] r.unwrap()@[i]).1) == dists[i]
            },
    {
        let s = match self.find_node_index(start) {
            Some(i) => i,
            None => {
                return Err(GraphError::StartNodeNotFound);
            },
        };
        proof {
            assert(s as int == self.index_of(start@));
        }
        let n = self.nodes.len();
        let m = self.generate_adjacency_matrix();
        let mut dist: Vec<Option<i128>> = Vec::new();
        while dist.len() < n
            invariant
                dist@.len() <= n,
                forall|k: int| 0 <= k < dist@.len() ==> (#[trigger] dist@[k]) is None,
            decreases n - dist@.len(),
        {
            dist.push(None);
        }
        dist.set(s, Some(0));
        let mut visited: Vec<bool> = Vec::new();
        while visited.len() < n
            invariant
                visited@.len() <= n,
                forall|k: int| 0 <= k < visited@.len() ==> !(#[trigger] visited@[k]),
            decreases n - visited@.len(),
        {
            visited.push(false);
        }
        proof {
            assert(dists_view(dist@) =~= init_dist(*self, s as int));
            assert(visited@ =~= init_vis(*self));
        }
        let mut c: usize = 0;
        while c < n
            invariant
                c <= n,
                self.wf(),
                n == self.nodes@.len(),
                visited@.len() == n,
                dist@.len() == n,
                m@.len() == n,
                forall|a: int| 0 <= a < n ==> (#[trigger] m@[a])@.len() == n,
                forall|a: int, b: int| #![trigger m@[a]@[b]] 0 <= a < n && 0 <= b < n
                    ==> m@[a]@[b] == self.adj(a, b),
                forall|k: int| 0 <= k < n ==> ((#[trigger] dist@[k]) matches Some(x)
                    ==> -((c as i128 + 1) * 0x1_0000_0000) <= x <= (c as i128 + 1) * 0x1_0000_0000),
                dij_loop(*self, dists_view(dist@), visited@, n - c) == spec_dijkstra(*self, s as int),
            decreases n - c,
        {
            let ghost pre_dv = dists_view(dist@);
            let ghost pre_vis = visited@;
            let mut best: Option<usize> = None;
            let mut j: usize = 0;
            while j < n
                invariant
                    j <= n,
                    n == visited@.len(),
                    n == dist@.len(),
                    match best {
                        None => pick_min(dists_view(dist@), visited@, j as int) == -1,
                        Some(b) => b < n && !visited@[b as int]
                            && pick_min(dists_view(dist@), visited@, j as int) == b as int,
                    },
                decreases n - j,
            {
                if !visited[j] {
                    best = match best {
                        None => Some(j),
                        Some(b) => {
                            if lt_dist(&dist[j], &dist[b]) {
                                Some(j)
                            } else {
                                Some(b)
                            }
                        },
                    };
                }
                j = j + 1;
            }
            match best {
                None => {
                    proof {
                        assert(dij_loop(*self, pre_dv, pre_vis, n - c) == pre_dv);
                        assert(dij_loop(*self, pre_dv, pre_vis, n - (c + 1)) == pre_dv);
                    }
                },
                Some(u) => {
                    visited.set(u, true);
                    let du_opt = dist[u];
                    match du_opt {
                        None => {
                            proof {
                                assert(visited@ =~= pre_vis.update(u as int, true));
                                assert(dij_loop(*self, pre_dv, pre_vis, n - c)
                                    == dij_loop(*self, dists_view(dist@), visited@, n - (c + 1)));
                            }
                        },
                        Some(du) => {
                            let ghost base_dv = dists_view(dist@);
                            let mut j: usize = 0;
                            while j < n
                                invariant
                                    j <= n,
                                    u < n,
                                    self.wf(),
                                    n == self.nodes@.len(),
                                    visited@.len() == n,
                                    dist@.len() == n,
                                    m@.len() == n,
                                    visited@[u as int],
                                    base_dv.len() == n,
                                    oview(du_opt) == base_dv[u as int],
                                    du_opt == Some(du),
                                    -((c as i128 + 1) * 0x1_0000_0000) <= du <= (c as i128 + 1) * 0x1_0000_0000,
                                    forall|a: int| 0 <= a < n ==> (#[trigger] m@[a])@.len() == n,
                                    forall|a: int, b: int| #![trigger m@[a]@[b]] 0 <= a < n && 0 <= b < n
                                        ==> m@[a]@[b] == self.adj(a, b),
                                    forall|k: int| 0 <= k < n ==> ((#[trigger] dist@[k]) matches Some(x)
                                        ==> -((c as i128 + 2) * 0x1_0000_0000) <= x <= (c as i128 + 2) * 0x1_0000_0000),
                                    dists_view(dist@) == relax(*self, u as int, du as int, j as int, base_dv, visited@),
                                decreases n - j,
                            {
                                proof {
                                    assert((c as i128 + 1) * 0x1_0000_0000 + 0x1_0000_0000 == (c as i128 + 2) * 0x1_0000_0000);
                                }
                                let w = m[u][j];
                                if w != 0 && !visited[j] {
                                    let nd = du + (w as i128);
                                    let nd_opt = Some(nd);
                                    if lt_dist(&nd_opt, &dist[j]) {
                                        dist.set(j, nd_opt);
                                        proof {
                                            assert(dists_view(dist@) =~= relax(*self, u as int, du as int, j as int, base_dv, visited@)
                                                .update(j as int, Some(du as int + self.adj(u as int, j as int) as int)));
                                        }
                                    }
                                }
                                j = j + 1;
                            }
                            proof {
                                assert(visited@ =~= pre_vis.update(u as int, true));
                                assert(dij_loop(*self, pre_dv, pre_vis, n - c)
                                    == dij_loop(*self, dists_view(dist@), visited@, n - (c + 1)));
                            }
                        },
                    }
                },
            }
            c = c + 1;
        }
        let mut out: Vec<(String, Option<i128>)> = Vec::new();
        let mut i: usize = 0;
        while i < n
            invariant
                i <= n,
                n == self.nodes@.len(),
                self.wf(),
                dist@.len() == n,
                out@.len() == i,
                dists_view(dist@) == spec_dijkstra(*self, s as int),
                forall|k: int| 0 <= k < i ==> (#[trigger] out@[k]).0@ == self.labels()[k],
                forall|k: int| 0 <= k < i ==> oview((#[trigger] out@[k]).1) == spec_dijkstra(*self, s as int)[k],
            decreases n - i,
        {
            let label = self.nodes[i].label.clone();
            proof {
                assert(label@ == self.labels()[i as int]);
                assert(oview(dist@[i as int]) == dists_view(dist@)[i as int]);
            }
            out.push((label, dist[i]));
            i = i + 1;
        }
        Ok(out)
    }
}

} // verus!
