//! A square spiral walk over an `n × n` grid (`n` = 1 or even): it starts in
//! the top-left cell of the central 2×2 block and winds outwards, clockwise
//! within the centre and ring by ring around it.
use vstd::prelude::*;

verus! {

/// Cell `j` of ring `t` of a grid of side `2m`. The ring surrounds the
/// square of side `s = 2t` whose top-left cell is `(a, a)`, `a = m - t`;
/// it starts on the left column just above the bottom-left corner and goes
/// up, right, down and left.
pub open spec fn ring_point(m: int, t: int, j: int) -> (int, int) {
    let s = 2 * t;
    let a = m - t;
    if j <= s {
        (a - 1, a + s - 1 - j)
    } else if j <= 2 * s + 1 {
        (a - 1 + (j - s), a - 1)
    } else if j <= 3 * s + 2 {
        (a + s, a - 1 + (j - 2 * s - 1))
    } else {
        (a + s - (j - 3 * s - 2), a + s)
    }
}

/// Number of cells in ring `t`.
pub open spec fn ring_len(t: nat) -> nat {
    8 * t + 4
}

/// The cells of rings `0 .. rings` of a grid of side `2m`, in walk order.
pub open spec fn spiral_rings(m: nat, rings: nat) -> Seq<(int, int)>
    decreases rings,
{
    if rings == 0 {
        Seq::empty()
    } else {
        let t = (rings - 1) as nat;
        spiral_rings(m, t) + Seq::new(ring_len(t), |j: int| ring_point(m as int, t as int, j))
    }
}

/// The spiral walk over a grid of side `n` (`n` = 1 or even).
pub open spec fn spiral(n: nat) -> Seq<(int, int)> {
    if n == 1 {
        seq![(0int, 0int)]
    } else {
        spiral_rings(n / 2, n / 2)
    }
}

/// Ring of cell `(x, y)` in a grid of side `2m`: its distance from the
/// central 2×2 block.
pub open spec fn ring_of(m: int, x: int, y: int) -> int {
    let dx = if x < m { m - 1 - x } else { x - m };
    let dy = if y < m { m - 1 - y } else { y - m };
    if dx >= dy { dx } else { dy }
}

/// Position of cell `(x, y)` within its ring.
pub open spec fn ring_pos(m: int, x: int, y: int) -> int {
    let t = ring_of(m, x, y);
    let s = 2 * t;
    let a = m - t;
    if x == a - 1 && y <= a + s - 1 {
        a + s - 1 - y
    } else if y == a - 1 {
        s + (x - (a - 1))
    } else if x == a + s {
        2 * s + 1 + (y - (a - 1))
    } else {
        3 * s + 2 + (a + s - x)
    }
}

/// Position of cell `(x, y)` in the spiral walk over a grid of side `n`.
pub open spec fn spiral_index(n: nat, x: int, y: int) -> int {
    if n == 1 {
        0
    } else {
        let t = ring_of((n / 2) as int, x, y);
        4 * t * t + ring_pos((n / 2) as int, x, y)
    }
}

proof fn lemma_ring_point_inverse(m: int, t: int, j: int)
    requires
        0 <= t < m,
        0 <= j < 8 * t + 4,
    ensures
        ({
            let (x, y) = ring_point(m, t, j);
            &&& 0 <= x < 2 * m
            &&& 0 <= y < 2 * m
            &&& ring_of(m, x, y) == t
            &&& ring_pos(m, x, y) == j
        }),
{
}

proof fn lemma_ring_pos_inverse(m: int, x: int, y: int)
    requires
        0 <= x < 2 * m,
        0 <= y < 2 * m,
    ensures
        0 <= ring_of(m, x, y) < m,
        0 <= ring_pos(m, x, y) < 8 * ring_of(m, x, y) + 4,
        ring_point(m, ring_of(m, x, y), ring_pos(m, x, y)) == (x, y),
{
}

proof fn lemma_spiral_rings_len(m: nat, rings: nat)
    ensures
        spiral_rings(m, rings).len() == 4 * rings * rings,
    decreases rings,
{
    if rings > 0 {
        let r = (rings - 1) as nat;
        lemma_spiral_rings_len(m, r);
        assert(spiral_rings(m, rings).len() == spiral_rings(m, r).len() + ring_len(r));
        assert(4 * r * r + 8 * r + 4 == 4 * rings * rings) by (nonlinear_arith)
            requires r + 1 == rings;
    } else {
        assert(4 * rings * rings == 0) by (nonlinear_arith) requires rings == 0;
    }
}

/// Entry `4t² + j` of the walk is cell `j` of ring `t`.
proof fn lemma_spiral_rings_index(m: nat, rings: nat, t: nat, j: int)
    requires
        t < rings,
        0 <= j < ring_len(t),
    ensures
        4 * t * t + j < spiral_rings(m, rings).len(),
        spiral_rings(m, rings)[4 * t * t + j] == ring_point(m as int, t as int, j),
    decreases rings,
{
    let r = (rings - 1) as nat;
    lemma_spiral_rings_len(m, r);
    lemma_spiral_rings_len(m, rings);
    if t < r {
        lemma_spiral_rings_index(m, r, t, j);
    } else {
        assert(4 * t * t + j < 4 * rings * rings) by (nonlinear_arith)
            requires t == r, r == rings - 1, 0 <= j < 8 * t + 4;
    }
}

/// Every entry of the walk lies in some ring: entry `k` is cell `j` of ring `t`.
proof fn lemma_spiral_rings_decompose(rings: nat, k: int) -> (r: (nat, int))
    requires
        0 <= k < 4 * rings * rings,
    ensures
        r.0 < rings,
        0 <= r.1 < ring_len(r.0),
        k == 4 * r.0 * r.0 + r.1,
    decreases rings,
{
    assert(rings > 0) by (nonlinear_arith) requires 0 <= k < 4 * rings * rings;
    let r = (rings - 1) as nat;
    if k < 4 * r * r {
        lemma_spiral_rings_decompose(r, k)
    } else {
        assert(4 * rings * rings == 4 * r * r + 8 * r + 4) by (nonlinear_arith) requires r + 1 == rings;
        (r, k - 4 * r * r)
    }
}

/// The spiral walk over a grid of side `n` (1 or even) visits every cell of
/// the grid exactly once: it has `n²` entries, each a cell of the grid, and
/// `spiral_index` gives the position of every cell in it.
pub proof fn law_spiral_is_bijection(n: nat)
    requires
        n == 1 || (n >= 2 && n % 2 == 0),
    ensures
        spiral(n).len() == n * n,
        forall|k: int| 0 <= k < n * n ==> {
            let (x, y) = #[trigger] spiral(n)[k];
            &&& 0 <= x < n
            &&& 0 <= y < n
            &&& spiral_index(n, x, y) == k
        },
        forall|x: int, y: int| 0 <= x < n && 0 <= y < n ==> {
            let k = #[trigger] spiral_index(n, x, y);
            &&& 0 <= k < n * n
            &&& spiral(n)[k] == (x, y)
        },
{
    if n == 1 {
        assert(spiral(n).len() == 1);
    } else {
        let m = n / 2;
        lemma_spiral_rings_len(m, m);
        assert(4 * m * m == n * n) by (nonlinear_arith) requires n == 2 * m;
        assert forall|k: int| 0 <= k < n * n implies {
            let (x, y) = #[trigger] spiral(n)[k];
            &&& 0 <= x < n
            &&& 0 <= y < n
            &&& spiral_index(n, x, y) == k
        } by {
            let (t, j) = lemma_spiral_rings_decompose(m, k);
            lemma_spiral_rings_index(m, m, t, j);
            lemma_ring_point_inverse(m as int, t as int, j);
        }
        assert forall|x: int, y: int| 0 <= x < n && 0 <= y < n implies {
            let k = #[trigger] spiral_index(n, x, y);
            &&& 0 <= k < n * n
            &&& spiral(n)[k] == (x, y)
        } by {
            lemma_ring_pos_inverse(m as int, x, y);
            let t = ring_of(m as int, x, y);
            lemma_spiral_rings_index(m, m, t as nat, ring_pos(m as int, x, y));
        }
    }
}

/// Walks a square grid in a spiral.
pub struct SpiralWalker {
    size: usize,
}

impl SpiralWalker {
    /// Side of the grid.
    pub closed spec fn side(&self) -> nat {
        self.size as nat
    }

    /// A walker over a grid of side `size`.
    pub fn new(size: usize) -> (r: SpiralWalker)
        ensures
            r.side() == size,
    {
        SpiralWalker { size }
    }

    /// The cells of the grid in walk order.
    pub fn walk(&self) -> (r: Vec<(usize, usize)>)
        requires
            self.side() == 1 || (self.side() >= 2 && self.side() % 2 == 0),
            self.side() * self.side() <= usize::MAX,
        ensures
            r@.len() == spiral(self.side()).len(),
            forall|k: int| 0 <= k < r@.len() ==> (r@[k].0 as int, r@[k].1 as int) == #[trigger] spiral(self.side())[k],
    {
        let n = self.size;
        let mut cells: Vec<(usize, usize)> = Vec::new();
        if n == 1 {
            cells.push((0, 0));
            return cells;
        }
        let m = n / 2;
        assert(m <= usize::MAX / 8) by (nonlinear_arith)
            requires n * n <= usize::MAX, n >= 2, m == n / 2, usize::MAX >= 0xffff_ffff;
        let mut t: usize = 0;
        while t < m
            invariant
                n == self.side(),
                m == n / 2,
                n % 2 == 0,
                n * n <= usize::MAX,
                m <= usize::MAX / 8,
                t <= m,
                cells@.len() == spiral_rings(m as nat, t as nat).len(),
                forall|k: int| 0 <= k < cells@.len() ==> (cells@[k].0 as int, cells@[k].1 as int) == #[trigger] spiral_rings(m as nat, t as nat)[k],
            decreases m - t,
        {
            let s = 2 * t;
            let a = m - t;
            let len = 8 * t + 4;
            let ghost before = cells@;
            let mut j: usize = 0;
            while j < len
                invariant
                    t < m,
                    s == 2 * t,
                    a == m - t,
                    len == 8 * t + 4,
                    m <= usize::MAX / 8,
                    j <= len,
                    cells@.len() == before.len() + j,
                    forall|k: int| 0 <= k < before.len() ==> cells@[k] == before[k],
                    forall|k: int| 0 <= k < j ==> (cells@[before.len() + k].0 as int, cells@[before.len() + k].1 as int)
                        == #[trigger] ring_point(m as int, t as int, k),
                decreases len - j,
            {
                let cell = if j <= s {
                    (a - 1, a + s - 1 - j)
                } else if j <= 2 * s + 1 {
                    (a - 1 + (j - s), a - 1)
                } else if j <= 3 * s + 2 {
                    (a + s, a - 1 + (j - 2 * s - 1))
                } else {
                    (a + s - (j - 3 * s - 2), a + s)
                };
                cells.push(cell);
                j += 1;
            }
            proof {
                let next = spiral_rings(m as nat, (t + 1) as nat);
                assert forall|k: int| 0 <= k < cells@.len() implies (cells@[k].0 as int, cells@[k].1 as int) == #[trigger] next[k] by {
                    if k >= before.len() {
                        assert(next[k] == ring_point(m as int, t as int, k - before.len()));
                    }
                }
            }
            t += 1;
        }
        cells
    }
}

} // verus!
