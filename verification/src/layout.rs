use vstd::prelude::*;
use vstd::arithmetic::div_mod::{lemma_div_is_ordered, lemma_div_multiples_vanish, lemma_div_nonincreasing, lemma_div_pos_is_pos};
use crate::graph::Graph;
use rand::Rng;
use rand::SeedableRng;

verus! {

/// Canvas bounds, in thousandths of a canvas unit.
pub const MIN_X: i64 = 20_000;

pub const MAX_X: i64 = 1_500_000;

pub const MIN_Y: i64 = 20_000;

pub const MAX_Y: i64 = 700_000;

/// Half a turn, in the angle scale the circular layout uses.
pub const HALF_TURN: i64 = 1_000_000;

/// The layout algorithms a graph can run.
#[derive(Clone, Copy, Debug, PartialEq, Eq, Structural)]
pub enum Layout {
    Random,
    Circular,
    Spring,
}

#[verifier::external_type_specification]
#[verifier::external_body]
pub struct ExStdRng(rand::rngs::StdRng);

/// Relies on rand's StdRng::seed_from_u64: a generator determined by the
/// seed alone.
#[verifier::external_body]
fn rng_from_seed(seed: u64) -> rand::rngs::StdRng {
    rand::rngs::StdRng::seed_from_u64(seed)
}

/// Relies on rand's Rng::gen_range over `lo..hi`: a uniform sample from the
/// half-open range, which panics only when the range is empty.
#[verifier::external_body]
fn rng_range(rng: &mut rand::rngs::StdRng, lo: i64, hi: i64) -> (r: i64)
    requires
        lo < hi,
    ensures
        lo <= r < hi,
{
    rng.gen_range(lo..hi)
}

/// The integer square root: the largest `r` with `r * r <= x`.
fn isqrt(x: u128) -> (r: u128)
    ensures
        r * r <= x,
        x < (r + 1) * (r + 1),
        r < 0x1_0000_0000_0000_0000,
{
    let mut lo: u128 = 0;
    let mut hi: u128 = 0x1_0000_0000_0000_0000;
    proof {
        assert((0x1_0000_0000_0000_0000u128 as int) * (0x1_0000_0000_0000_0000u128 as int) > x as int)
            by (nonlinear_arith)
            requires x <= u128::MAX;
    }
    while lo + 1 < hi
        invariant
            lo < hi <= 0x1_0000_0000_0000_0000,
            lo * lo <= x,
            (hi as int) * (hi as int) > x as int,
        decreases hi - lo,
    {
        let mid = lo + (hi - lo) / 2;
        proof {
            assert(lo < mid < hi);
            assert((mid as int) * (mid as int) < 0x1_0000_0000_0000_0000i128 as int * 0x1_0000_0000_0000_0000i128 as int)
                by (nonlinear_arith)
                requires mid < 0x1_0000_0000_0000_0000u128;
        }
        if mid * mid <= x {
            lo = mid;
        } else {
            hi = mid;
        }
    }
    lo
}

/// The Bhaskara approximation of `sin` over half a turn, scaled by 1000:
/// `16 t (T - t) * 1000 / (5 T^2 - 4 t (T - t))` for `t` in `[0, T]`.
pub open spec fn bhaskara(t: int) -> int {
    16 * t * (HALF_TURN - t) * 1000 / (5 * (HALF_TURN as int) * (HALF_TURN as int) - 4 * t * (HALF_TURN - t))
}

/// The approximated sine of an angle of `t` (in `[0, 2T)` scale units, a half
/// turn being `T`), scaled by 1000.
pub open spec fn sin_milli(t: int) -> int {
    if t < HALF_TURN {
        bhaskara(t)
    } else {
        -bhaskara(t - HALF_TURN)
    }
}

/// The approximated cosine: the sine a quarter turn ahead.
pub open spec fn cos_milli(t: int) -> int {
    if t + HALF_TURN / 2 < 2 * HALF_TURN {
        sin_milli(t + HALF_TURN / 2)
    } else {
        sin_milli(t + HALF_TURN / 2 - 2 * HALF_TURN)
    }
}

/// The Bhaskara numerator and denominator stay in range and their quotient
/// within `[0, 1000]`.
proof fn lemma_bhaskara_bounds(t: int)
    requires
        0 <= t <= HALF_TURN,
    ensures
        0 <= bhaskara(t) <= 1000,
{
    let u = t * (HALF_TURN - t);
    let num = 16 * u * 1000;
    let den = 5 * (HALF_TURN as int) * (HALF_TURN as int) - 4 * u;
    assert(0 <= u && 4 * u <= (HALF_TURN as int) * (HALF_TURN as int)) by (nonlinear_arith)
        requires 0 <= t <= HALF_TURN as int && u == t * (HALF_TURN - t);
    assert(den >= 4 * (HALF_TURN as int) * (HALF_TURN as int));
    assert(num <= 1000 * den) by (nonlinear_arith)
        requires 4 * u <= (HALF_TURN as int) * (HALF_TURN as int)
            && num == 16 * u * 1000
            && den == 5 * (HALF_TURN as int) * (HALF_TURN as int) - 4 * u;
    assert(16 * t * (HALF_TURN - t) * 1000 == num) by (nonlinear_arith)
        requires u == t * (HALF_TURN - t) && num == 16 * u * 1000;
    assert(4 * t * (HALF_TURN - t) == 4 * u) by (nonlinear_arith)
        requires u == t * (HALF_TURN - t);
    lemma_div_is_ordered(num, 1000 * den, den);
    lemma_div_multiples_vanish(1000, den);
    assert(num / den >= 0) by (nonlinear_arith)
        requires num >= 0 && den > 0;
}

/// The approximated sine of `t` scale units, computed exactly as the
/// specification states it.
fn sin_milli_exec(t: i64) -> (r: i64)
    requires
        0 <= t < 2 * HALF_TURN,
    ensures
        r == sin_milli(t as int),
        -1000 <= r <= 1000,
{
    if t < HALF_TURN {
        proof {
            assert(0 <= (t as int) * ((HALF_TURN - t) as int) <= (HALF_TURN as int) * (HALF_TURN as int))
                by (nonlinear_arith)
                requires 0 <= t as int <= HALF_TURN as int;
        }
        let u = t * (HALF_TURN - t);
        proof {
            lemma_bhaskara_bounds(t as int);
            assert(16 * (t as int) * ((HALF_TURN - t) as int) * 1000 == 16 * (u as int) * 1000)
                by (nonlinear_arith)
                requires u as int == (t as int) * ((HALF_TURN - t) as int);
            assert(4 * (t as int) * ((HALF_TURN - t) as int) == 4 * (u as int))
                by (nonlinear_arith)
                requires u as int == (t as int) * ((HALF_TURN - t) as int);
        }
        let num = 16 * u * 1000;
        let den = 5 * HALF_TURN * HALF_TURN - 4 * u;
        num / den
    } else {
        let tt = t - HALF_TURN;
        proof {
            assert(0 <= (tt as int) * ((HALF_TURN - tt) as int) <= (HALF_TURN as int) * (HALF_TURN as int))
                by (nonlinear_arith)
                requires 0 <= tt as int <= HALF_TURN as int;
        }
        let u = tt * (HALF_TURN - tt);
        proof {
            lemma_bhaskara_bounds(tt as int);
            assert(16 * (tt as int) * ((HALF_TURN - tt) as int) * 1000 == 16 * (u as int) * 1000)
                by (nonlinear_arith)
                requires u as int == (tt as int) * ((HALF_TURN - tt) as int);
            assert(4 * (tt as int) * ((HALF_TURN - tt) as int) == 4 * (u as int))
                by (nonlinear_arith)
                requires u as int == (tt as int) * ((HALF_TURN - tt) as int);
        }
        let num = 16 * u * 1000;
        let den = 5 * HALF_TURN * HALF_TURN - 4 * u;
        -(num / den)
    }
}

/// The approximated cosine of `t` scale units.
fn cos_milli_exec(t: i64) -> (r: i64)
    requires
        0 <= t < 2 * HALF_TURN,
    ensures
        r == cos_milli(t as int),
        -1000 <= r <= 1000,
{
    let quarter = HALF_TURN / 2;
    if t + quarter < 2 * HALF_TURN {
        sin_milli_exec(t + quarter)
    } else {
        sin_milli_exec(t + quarter - 2 * HALF_TURN)
    }
}

/// The angle, in scale units of a full `2T` turn, of the i-th of n nodes.
pub open spec fn circ_turn(i: int, n: int) -> int {
    i * (2 * HALF_TURN) / n
}

/// The circular-layout coordinates of the i-th of n nodes: a fixed radius
/// around the canvas center, offset by the scaled cosine and sine.
pub open spec fn circ_x(i: int, n: int) -> int {
    760_000 + 330 * cos_milli(circ_turn(i, n))
}

pub open spec fn circ_y(i: int, n: int) -> int {
    360_000 + 330 * sin_milli(circ_turn(i, n))
}

impl Graph {
    /// Place every node uniformly at random within the canvas, from the given
    /// seed; the same seed places the same nodes at the same coordinates.
    pub fn random_layout(&mut self, seed: u64)
        requires
            old(self).wf(),
        ensures
            final(self).wf(),
            layout_keeps_structure(*old(self), *final(self)),
            all_positions_in_canvas(*final(self)),
            final(self).positions_set == true,
    {
        let mut rng = rng_from_seed(seed);
        self.random_positions(&mut rng);
    }

    /// One random placement pass with the supplied generator.
    fn random_positions(&mut self, rng: &mut rand::rngs::StdRng)
        requires
            old(self).wf(),
        ensures
            final(self).wf(),
            layout_keeps_structure(*old(self), *final(self)),
            all_positions_in_canvas(*final(self)),
            final(self).positions_set == true,
    {
        let n = self.nodes.len();
        let mut i: usize = 0;
        while i < n
            invariant
                i <= n,
                n == self.nodes@.len(),
                old(self).nodes@.len() == n,
                self.positions_set == old(self).positions_set,
                forall|k: int| 0 <= k < n ==> node_same_but_pos(old(self).nodes@[k], (#[trigger] self.nodes@[k])),
                forall|k: int| 0 <= k < i ==> pos_in_canvas(#[trigger] self.nodes@[k].x, self.nodes@[k].y),
            decreases n - i,
        {
            let x = rng_range(rng, MIN_X, MAX_X);
            let y = rng_range(rng, MIN_Y, MAX_Y);
            self.nodes[i].x = Some(x);
            self.nodes[i].y = Some(y);
            i = i + 1;
        }
        self.positions_set = true;
        proof {
            lemma_structure_keeps_wf(*old(self), *final(self));
        }
    }

    /// Place the nodes evenly on a fixed circle around the canvas center, the
    /// i-th node (in creation order) at the i-th fraction of a full turn.
    pub fn circular_layout(&mut self)
        requires
            old(self).wf(),
        ensures
            final(self).wf(),
            layout_keeps_structure(*old(self), *final(self)),
            all_positions_in_canvas(*final(self)),
            final(self).positions_set == true,
            forall|k: int| 0 <= k < final(self).nodes@.len() ==> {
                &&& (#[trigger] final(self).nodes@[k]).x matches Some(xv) && xv == circ_x(k, final(self).n())
                &&& final(self).nodes@[k].y matches Some(yv) && yv == circ_y(k, final(self).n())
            },
    {
        let n = self.nodes.len();
        let mut i: usize = 0;
        while i < n
            invariant
                i <= n,
                n == self.nodes@.len(),
                old(self).nodes@.len() == n,
                self.positions_set == old(self).positions_set,
                forall|k: int| 0 <= k < n ==> node_same_but_pos(old(self).nodes@[k], (#[trigger] self.nodes@[k])),
                forall|k: int| 0 <= k < i ==> {
                    &&& (#[trigger] self.nodes@[k]).x matches Some(xv) && xv == circ_x(k, n as int)
                    &&& self.nodes@[k].y matches Some(yv) && yv == circ_y(k, n as int)
                },
                forall|k: int| 0 <= k < i ==> pos_in_canvas(#[trigger] self.nodes@[k].x, self.nodes@[k].y),
            decreases n - i,
        {
            proof {
                assert(0 <= (i as int) * (2 * HALF_TURN as int) / (n as int) < 2 * HALF_TURN as int)
                    by (nonlinear_arith)
                    requires 0 <= i as int && (i as int) < n as int;
                assert((i as i128) * (2 * (HALF_TURN as i128)) <= (u64::MAX as i128) * (2 * (HALF_TURN as i128)))
                    by (nonlinear_arith)
                    requires 0 <= i as i128 <= u64::MAX as i128;
            }
            let turn_wide: i128 = ((i as i128) * (2 * (HALF_TURN as i128))) / (n as i128);
            let turn: i64 = turn_wide as i64;
            let cx = cos_milli_exec(turn);
            let sy = sin_milli_exec(turn);
            let x = 760_000i64 + 330 * cx;
            let y = 360_000i64 + 330 * sy;
            self.nodes[i].x = Some(x);
            self.nodes[i].y = Some(y);
            proof {
                assert(turn as int == circ_turn(i as int, n as int));
                assert(MIN_X <= x <= MAX_X && MIN_Y <= y <= MAX_Y);
            }
            i = i + 1;
        }
        self.positions_set = true;
        proof {
            lemma_structure_keeps_wf(*old(self), *final(self));
        }
    }
}

/// Whether a held position lies within the canvas.
pub open spec fn pos_in_canvas(x: Option<i64>, y: Option<i64>) -> bool {
    &&& x matches Some(xv) && MIN_X <= xv <= MAX_X
    &&& y matches Some(yv) && MIN_Y <= yv <= MAX_Y
}

/// Whether every node of the graph holds a position within the canvas.
pub open spec fn all_positions_in_canvas(g: Graph) -> bool {
    forall|k: int| 0 <= k < g.nodes@.len() ==> pos_in_canvas((#[trigger] g.nodes@[k]).x, g.nodes@[k].y)
}

/// Whether one node kept everything but its position.
pub open spec fn node_same_but_pos(before: crate::graph::Node, after: crate::graph::Node) -> bool {
    &&& after.label == before.label
    &&& after.index == before.index
    &&& after.connections == before.connections
}

/// Whether a layout pass kept the node count, labels, indices and edges, and
/// changed positions alone.
pub open spec fn layout_keeps_structure(before: Graph, after: Graph) -> bool {
    &&& after.nodes@.len() == before.nodes@.len()
    &&& forall|k: int| 0 <= k < before.nodes@.len()
        ==> node_same_but_pos(before.nodes@[k], (#[trigger] after.nodes@[k]))
}

/// A pass that changes positions alone keeps the graph well-formed.
proof fn lemma_structure_keeps_wf(before: Graph, after: Graph)
    requires
        before.wf(),
        layout_keeps_structure(before, after),
    ensures
        after.wf(),
{
    assert forall|i: int| 0 <= i < after.n() implies #[trigger] after.labels()[i] == before.labels()[i] by {
        assert(node_same_but_pos(before.nodes@[i], after.nodes@[i]));
    }
}

/// The saturation cap on accumulated displacement components; far beyond any
/// force a canvas-bounded layout can produce, it only guards the arithmetic.
pub const DISP_CAP: i128 = 0x1000_0000_0000_0000;

/// Add a displacement contribution, saturating at the cap.
fn add_clamped(acc: i128, d: i128) -> (r: i128)
    requires
        -DISP_CAP <= acc <= DISP_CAP,
        -0x4000_0000_0000_0000i128 <= d <= 0x4000_0000_0000_0000i128,
    ensures
        -DISP_CAP <= r <= DISP_CAP,
{
    let s = acc + d;
    if s > DISP_CAP {
        DISP_CAP
    } else if s < -DISP_CAP {
        -DISP_CAP
    } else {
        s
    }
}

/// Scale `v` by `num / den`, rounding toward zero; `|v| <= den` keeps the
/// result within `[-num, num]`.
fn scale_disp(v: i128, num: i128, den: i128) -> (r: i128)
    requires
        1 <= den <= 0x4000_0000_0000_0000i128,
        0 <= num <= 0x1_0000_0000i128,
        -den <= v <= den,
    ensures
        -num <= r <= num,
{
    let a = if v >= 0 { v } else { -v };
    proof {
        assert((a as int) * (num as int) <= (den as int) * (num as int)) by (nonlinear_arith)
            requires 0 <= a as int <= den as int && 0 <= num as int;
        assert((a as int) * (num as int) >= 0) by (nonlinear_arith)
            requires 0 <= a as int && 0 <= num as int;
        assert((den as int) * (num as int) <= 0x4000_0000_0000_0000i128 as int * 0x1_0000_0000i128 as int)
            by (nonlinear_arith)
            requires 0 <= den as int <= 0x4000_0000_0000_0000i128 as int
                && 0 <= num as int <= 0x1_0000_0000i128 as int;
        lemma_div_is_ordered((a as int) * (num as int), (den as int) * (num as int), den as int);
        assert((den as int) * (num as int) == (num as int) * (den as int)) by (nonlinear_arith);
        lemma_div_multiples_vanish(num as int, den as int);
        lemma_div_pos_is_pos((a as int) * (num as int), den as int);
    }
    let q = a * num / den;
    if v >= 0 {
        q
    } else {
        -q
    }
}

/// Divide a bounded product, rounding toward zero; the magnitude never grows.
fn div_toward_zero(v: i128, den: i128) -> (r: i128)
    requires
        1 <= den,
        -0x4000_0000_0000_0000i128 <= v <= 0x4000_0000_0000_0000i128,
    ensures
        -0x4000_0000_0000_0000i128 <= r <= 0x4000_0000_0000_0000i128,
{
    let a = if v >= 0 { v } else { -v };
    proof {
        lemma_div_nonincreasing(a as int, den as int);
        lemma_div_pos_is_pos(a as int, den as int);
    }
    let q = a / den;
    if v >= 0 {
        q
    } else {
        -q
    }
}

/// The integer distance between two held positions, at least one: the square
/// root of the squared component differences, plus one so that no force
/// divides by zero.
fn pair_dist(dx: i64, dy: i64) -> (dist: i64)
    requires
        -1_480_000 <= dx <= 1_480_000,
        -680_000 <= dy <= 680_000,
    ensures
        1 <= dist <= 0x40_0000,
{
    proof {
        assert(0 <= (dx as int) * (dx as int) && (dx as int) * (dx as int) <= 0x200_0000_0000i64 as int)
            by (nonlinear_arith)
            requires -1_480_000 <= dx as int <= 1_480_000;
        assert(0 <= (dy as int) * (dy as int) && (dy as int) * (dy as int) <= 0x200_0000_0000i64 as int)
            by (nonlinear_arith)
            requires -680_000 <= dy as int <= 680_000;
    }
    let d2 = dx * dx + dy * dy;
    let root = isqrt(d2 as u128);
    proof {
        assert(root <= 0x20_0000) by (nonlinear_arith)
            requires (root as int) * (root as int) <= 0x400_0000_0000i64 as int && 0 <= root as int;
    }
    (root as i64) + 1
}

impl Graph {
    /// Force-directed placement: initialize at random from the seed, then for
    /// fifty rounds push every pair of nodes apart by `k^2 / d`, pull every
    /// connected pair together by `d^2 / k`, cap each node's move at a
    /// cooling temperature, and keep every position within the canvas. The
    /// same seed yields the same final positions.
    pub fn spring_layout(&mut self, seed: u64)
        requires
            old(self).wf(),
        ensures
            final(self).wf(),
            layout_keeps_structure(*old(self), *final(self)),
            all_positions_in_canvas(*final(self)),
            final(self).positions_set == true,
    {
        let mut rng = rng_from_seed(seed);
        self.random_positions(&mut rng);
        let n = self.nodes.len();
        if n == 0 {
            return;
        }
        let m = self.generate_adjacency_matrix();
        proof {
            assert(((MAX_X - MIN_X) as u128) * ((MAX_Y - MIN_Y) as u128) == 1_006_400_000_000u128)
                by (nonlinear_arith);
        }
        let area: u128 = ((MAX_X - MIN_X) as u128) * ((MAX_Y - MIN_Y) as u128);
        proof {
            lemma_div_nonincreasing(area as int, n as int);
            lemma_div_pos_is_pos(area as int, n as int);
        }
        let root = isqrt(area / (n as u128));
        proof {
            assert(root <= 0x10_0000) by (nonlinear_arith)
                requires (root as int) * (root as int) <= 0x100_0000_0000u128 as int && 0 <= root as int;
        }
        let mut k: i64 = root as i64;
        if k < 1 {
            k = 1;
        }
        let mut xs: Vec<i64> = Vec::new();
        let mut ys: Vec<i64> = Vec::new();
        let mut i: usize = 0;
        while i < n
            invariant
                i <= n,
                n == self.nodes@.len(),
                xs@.len() == i && ys@.len() == i,
                forall|c: int| 0 <= c < i ==> MIN_X <= #[trigger] xs@[c] <= MAX_X,
                forall|c: int| 0 <= c < i ==> MIN_Y <= #[trigger] ys@[c] <= MAX_Y,
            decreases n - i,
        {
            let x = match self.nodes[i].x {
                Some(v) => v,
                None => MIN_X,
            };
            let y = match self.nodes[i].y {
                Some(v) => v,
                None => MIN_Y,
            };
            let cx = if x < MIN_X { MIN_X } else if x > MAX_X { MAX_X } else { x };
            let cy = if y < MIN_Y { MIN_Y } else if y > MAX_Y { MAX_Y } else { y };
            xs.push(cx);
            ys.push(cy);
            i = i + 1;
        }
        let mut temp: i64 = (MAX_X - MIN_X) / 10;
        let mut round: usize = 0;
        while round < 50
            invariant
                round <= 50,
                n >= 1,
                1 <= k <= 0x10_0000,
                n == m@.len(),
                forall|c: int| 0 <= c < n ==> (#[trigger] m@[c])@.len() == n,
                xs@.len() == n && ys@.len() == n,
                forall|c: int| 0 <= c < n ==> MIN_X <= #[trigger] xs@[c] <= MAX_X,
                forall|c: int| 0 <= c < n ==> MIN_Y <= #[trigger] ys@[c] <= MAX_Y,
                0 <= temp <= 148_000,
            decreases 50 - round,
        {
            let mut disp: Vec<(i128, i128)> = Vec::new();
            while disp.len() < n
                invariant
                    disp@.len() <= n,
                    forall|c: int| 0 <= c < disp@.len()
                        ==> (#[trigger] disp@[c]).0 == 0i128 && disp@[c].1 == 0i128,
                decreases n - disp@.len(),
            {
                disp.push((0, 0));
            }
            let mut a: usize = 0;
            while a < n
                invariant
                    a <= n,
                    n >= 1,
                    1 <= k <= 0x10_0000,
                    xs@.len() == n && ys@.len() == n,
                    forall|c: int| 0 <= c < n ==> MIN_X <= #[trigger] xs@[c] <= MAX_X,
                    forall|c: int| 0 <= c < n ==> MIN_Y <= #[trigger] ys@[c] <= MAX_Y,
                    disp@.len() == n,
                    forall|c: int| 0 <= c < n
                        ==> -DISP_CAP <= (#[trigger] disp@[c]).0 <= DISP_CAP
                            && -DISP_CAP <= disp@[c].1 <= DISP_CAP,
                decreases n - a,
            {
                let mut b: usize = 0;
                while b < n
                    invariant
                        b <= n,
                        a < n,
                        n >= 1,
                        1 <= k <= 0x10_0000,
                        xs@.len() == n && ys@.len() == n,
                        forall|c: int| 0 <= c < n ==> MIN_X <= #[trigger] xs@[c] <= MAX_X,
                        forall|c: int| 0 <= c < n ==> MIN_Y <= #[trigger] ys@[c] <= MAX_Y,
                        disp@.len() == n,
                        forall|c: int| 0 <= c < n
                            ==> -DISP_CAP <= (#[trigger] disp@[c]).0 <= DISP_CAP
                                && -DISP_CAP <= disp@[c].1 <= DISP_CAP,
                    decreases n - b,
                {
                    if b != a {
                        let dx = xs[a] - xs[b];
                        let dy = ys[a] - ys[b];
                        let dist = pair_dist(dx, dy);
                        proof {
                            assert((k as int) * (k as int) <= 0x100_0000_0000i64 as int)
                                by (nonlinear_arith)
                                requires 1 <= k as int <= 0x10_0000;
                        }
                        let k2 = k * k;
                        proof {
                            lemma_div_nonincreasing(k2 as int, dist as int);
                            lemma_div_pos_is_pos(k2 as int, dist as int);
                        }
                        let rep = k2 / dist;
                        proof {
                            assert(-0x4000_0000_0000_0000i128 as int <= (dx as int) * (rep as int)
                                && (dx as int) * (rep as int) <= 0x4000_0000_0000_0000i128 as int)
                                by (nonlinear_arith)
                                requires -1_480_000 <= dx as int <= 1_480_000
                                    && 0 <= rep as int <= 0x100_0000_0000i64 as int;
                            assert(-0x4000_0000_0000_0000i128 as int <= (dy as int) * (rep as int)
                                && (dy as int) * (rep as int) <= 0x4000_0000_0000_0000i128 as int)
                                by (nonlinear_arith)
                                requires -680_000 <= dy as int <= 680_000
                                    && 0 <= rep as int <= 0x100_0000_0000i64 as int;
                        }
                        let ddx = div_toward_zero((dx as i128) * (rep as i128), dist as i128);
                        let ddy = div_toward_zero((dy as i128) * (rep as i128), dist as i128);
                        let cur = disp[a];
                        disp.set(a, (add_clamped(cur.0, ddx), add_clamped(cur.1, ddy)));
                    }
                    b = b + 1;
                }
                a = a + 1;
            }
            let mut a: usize = 0;
            while a < n
                invariant
                    a <= n,
                    n >= 1,
                    1 <= k <= 0x10_0000,
                    n == m@.len(),
                    forall|c: int| 0 <= c < n ==> (#[trigger] m@[c])@.len() == n,
                    xs@.len() == n && ys@.len() == n,
                    forall|c: int| 0 <= c < n ==> MIN_X <= #[trigger] xs@[c] <= MAX_X,
                    forall|c: int| 0 <= c < n ==> MIN_Y <= #[trigger] ys@[c] <= MAX_Y,
                    disp@.len() == n,
                    forall|c: int| 0 <= c < n
                        ==> -DISP_CAP <= (#[trigger] disp@[c]).0 <= DISP_CAP
                            && -DISP_CAP <= disp@[c].1 <= DISP_CAP,
                decreases n - a,
            {
                let mut b: usize = a + 1;
                while b < n
                    invariant
                        a < b <= n,
                        a < n,
                        n >= 1,
                        1 <= k <= 0x10_0000,
                        n == m@.len(),
                        forall|c: int| 0 <= c < n ==> (#[trigger] m@[c])@.len() == n,
                        xs@.len() == n && ys@.len() == n,
                        forall|c: int| 0 <= c < n ==> MIN_X <= #[trigger] xs@[c] <= MAX_X,
                        forall|c: int| 0 <= c < n ==> MIN_Y <= #[trigger] ys@[c] <= MAX_Y,
                        disp@.len() == n,
                        forall|c: int| 0 <= c < n
                            ==> -DISP_CAP <= (#[trigger] disp@[c]).0 <= DISP_CAP
                                && -DISP_CAP <= disp@[c].1 <= DISP_CAP,
                    decreases n - b,
                {
                    if m[a][b] != 0 || m[b][a] != 0 {
                        let dx = xs[a] - xs[b];
                        let dy = ys[a] - ys[b];
                        let dist = pair_dist(dx, dy);
                        proof {
                            assert(-0x4000_0000_0000_0000i128 as int <= (dx as int) * (dist as int)
                                && (dx as int) * (dist as int) <= 0x4000_0000_0000_0000i128 as int)
                                by (nonlinear_arith)
                                requires -1_480_000 <= dx as int <= 1_480_000
                                    && 1 <= dist as int <= 0x40_0000;
                            assert(-0x4000_0000_0000_0000i128 as int <= (dy as int) * (dist as int)
                                && (dy as int) * (dist as int) <= 0x4000_0000_0000_0000i128 as int)
                                by (nonlinear_arith)
                                requires -680_000 <= dy as int <= 680_000
                                    && 1 <= dist as int <= 0x40_0000;
                        }
                        let adx = div_toward_zero((dx as i128) * (dist as i128), k as i128);
                        let ady = div_toward_zero((dy as i128) * (dist as i128), k as i128);
                        let cur_a = disp[a];
                        disp.set(a, (add_clamped(cur_a.0, -adx), add_clamped(cur_a.1, -ady)));
                        let cur_b = disp[b];
                        disp.set(b, (add_clamped(cur_b.0, adx), add_clamped(cur_b.1, ady)));
                    }
                    b = b + 1;
                }
                a = a + 1;
            }
            let mut c: usize = 0;
            while c < n
                invariant
                    c <= n,
                    n >= 1,
                    xs@.len() == n && ys@.len() == n,
                    forall|t: int| 0 <= t < n ==> MIN_X <= #[trigger] xs@[t] <= MAX_X,
                    forall|t: int| 0 <= t < n ==> MIN_Y <= #[trigger] ys@[t] <= MAX_Y,
                    disp@.len() == n,
                    0 <= temp <= 148_000,
                    forall|t: int| 0 <= t < n
                        ==> -DISP_CAP <= (#[trigger] disp@[t]).0 <= DISP_CAP
                            && -DISP_CAP <= disp@[t].1 <= DISP_CAP,
                decreases n - c,
            {
                let (dx, dy) = disp[c];
                proof {
                    assert(0 <= (dx as int) * (dx as int)
                        && (dx as int) * (dx as int) <= 0x1000000_0000_0000_0000_0000_0000_0000i128 as int)
                        by (nonlinear_arith)
                        requires -DISP_CAP as int <= dx as int <= DISP_CAP as int;
                    assert(0 <= (dy as int) * (dy as int)
                        && (dy as int) * (dy as int) <= 0x1000000_0000_0000_0000_0000_0000_0000i128 as int)
                        by (nonlinear_arith)
                        requires -DISP_CAP as int <= dy as int <= DISP_CAP as int;
                }
                let mag2 = dx * dx + dy * dy;
                let mag = isqrt(mag2 as u128) as i128;
                proof {
                    assert(mag <= 0x4000_0000_0000_0000i128) by (nonlinear_arith)
                        requires (mag as int) * (mag as int) <= 0x2000000_0000_0000_0000_0000_0000_0000i128 as int
                            && 0 <= mag as int;
                }
                if mag > 0 {
                    let limited: i128 = if mag < (temp as i128) { mag } else { temp as i128 };
                    proof {
                        assert((dx as int) * (dx as int) <= (mag2 as int)) by (nonlinear_arith)
                            requires (mag2 as int) == (dx as int) * (dx as int) + (dy as int) * (dy as int)
                                && (dy as int) * (dy as int) >= 0;
                        assert((dy as int) * (dy as int) <= (mag2 as int)) by (nonlinear_arith)
                            requires (mag2 as int) == (dx as int) * (dx as int) + (dy as int) * (dy as int)
                                && (dx as int) * (dx as int) >= 0;
                        assert(-(mag as int) <= dx as int && dx as int <= mag as int) by (nonlinear_arith)
                            requires (dx as int) * (dx as int) <= mag2 as int
                                && (mag2 as int) < ((mag as int) + 1) * ((mag as int) + 1)
                                && mag as int >= 0;
                        assert(-(mag as int) <= dy as int && dy as int <= mag as int) by (nonlinear_arith)
                            requires (dy as int) * (dy as int) <= mag2 as int
                                && (mag2 as int) < ((mag as int) + 1) * ((mag as int) + 1)
                                && mag as int >= 0;
                    }
                    let px = scale_disp(dx, limited, mag);
                    let py = scale_disp(dy, limited, mag);
                    let nx = xs[c] + (px as i64);
                    let ny = ys[c] + (py as i64);
                    let cx = if nx < MIN_X { MIN_X } else if nx > MAX_X { MAX_X } else { nx };
                    let cy = if ny < MIN_Y { MIN_Y } else if ny > MAX_Y { MAX_Y } else { ny };
                    xs.set(c, cx);
                    ys.set(c, cy);
                }
                c = c + 1;
            }
            proof {
                lemma_div_nonincreasing(temp as int * 95, 100);
                lemma_div_pos_is_pos(temp as int * 95, 100);
                assert(temp as int * 95 / 100 <= temp as int) by (nonlinear_arith)
                    requires 0 <= temp as int;
            }
            temp = temp * 95 / 100;
            round = round + 1;
        }
        let mut i: usize = 0;
        while i < n
            invariant
                i <= n,
                n == self.nodes@.len(),
                old(self).nodes@.len() == n,
                self.positions_set == true,
                xs@.len() == n && ys@.len() == n,
                forall|c: int| 0 <= c < n ==> MIN_X <= #[trigger] xs@[c] <= MAX_X,
                forall|c: int| 0 <= c < n ==> MIN_Y <= #[trigger] ys@[c] <= MAX_Y,
                forall|c: int| 0 <= c < n ==> node_same_but_pos(old(self).nodes@[c], (#[trigger] self.nodes@[c])),
                forall|c: int| 0 <= c < i ==> pos_in_canvas((#[trigger] self.nodes@[c]).x, self.nodes@[c].y),
            decreases n - i,
        {
            self.nodes[i].x = Some(xs[i]);
            self.nodes[i].y = Some(ys[i]);
            i = i + 1;
        }
        proof {
            lemma_structure_keeps_wf(*old(self), *final(self));
        }
    }

    /// Run the chosen layout; the seed feeds the randomized ones and is
    /// ignored by the circular placement.
    pub fn apply_layout(&mut self, layout: Layout, seed: u64)
        requires
            old(self).wf(),
        ensures
            final(self).wf(),
            layout_keeps_structure(*old(self), *final(self)),
            all_positions_in_canvas(*final(self)),
            final(self).positions_set == true,
    {
        match layout {
            Layout::Random => self.random_layout(seed),
            Layout::Circular => self.circular_layout(),
            Layout::Spring => self.spring_layout(seed),
        }
    }
}


} // verus!
