use vstd::prelude::*;

use crate::energy_function::EnergyFunction;
use crate::image::{lemma_grid_index, Image, ImageV};

verus! {

/// A well-formed energy grid for a seam search: `m` lines of `n` entries
/// each, every entry small enough that accumulated costs fit in 64 bits.
pub open spec fn grid_wf(g: Seq<Seq<u64>>, m: int, n: int) -> bool {
    &&& g.len() == m
    &&& 1 <= m
    &&& 1 <= n
    &&& forall|y: int| 0 <= y < m ==> (#[trigger] g[y]).len() == n
    &&& forall|y: int, x: int| 0 <= y < m && 0 <= x < n ==> #[trigger] g[y][x] <= u32::MAX
}

/// The energy grid a vertical-seam search walks: entry [y][x] scores
/// pixel (x, y), so each line of the grid is one image row.
pub open spec fn vgrid<F: EnergyFunction>(f: F, iv: ImageV) -> Seq<Seq<u64>> {
    Seq::new(iv.h as nat, |y: int| Seq::new(iv.w as nat, |x: int| f.spec_energy(iv, x, y) as u64))
}

/// The transposed grid a horizontal-seam search walks: entry [x][y] scores
/// pixel (x, y), so each line of the grid is one image column.
pub open spec fn hgrid<F: EnergyFunction>(f: F, iv: ImageV) -> Seq<Seq<u64>> {
    Seq::new(iv.w as nat, |x: int| Seq::new(iv.h as nat, |y: int| f.spec_energy(iv, x, y) as u64))
}

/// Leftmost entry of the predecessor window of position `x` in a line of
/// width `n`.
pub open spec fn window_lo(x: int) -> int {
    if x <= 0 {
        0
    } else {
        x - 1
    }
}

/// Rightmost entry of the predecessor window of position `x` in a line of
/// width `n`.
pub open spec fn window_hi(x: int, n: int) -> int {
    if x + 1 < n {
        x + 1
    } else {
        n - 1
    }
}

/// Accumulated cost of the cheapest connected path from line 0 down to
/// cell (y, x): the cell's own energy plus the least cost over the up to
/// three predecessor cells in line y - 1.
pub open spec fn dp_cost(g: Seq<Seq<u64>>, y: int, x: int) -> int
    decreases y, 1int, 0int,
{
    if y <= 0 {
        g[0][x] as int
    } else {
        g[y][x] + min_cost_in(g, y - 1, window_lo(x), window_hi(x, g[0].len() as int))
    }
}

/// Least accumulated cost in line `y` over positions `lo ..= hi`.
pub open spec fn min_cost_in(g: Seq<Seq<u64>>, y: int, lo: int, hi: int) -> int
    decreases y, 2int, hi - lo,
{
    if lo >= hi {
        dp_cost(g, y, lo)
    } else {
        let m = min_cost_in(g, y, lo, hi - 1);
        let c = dp_cost(g, y, hi);
        if c < m {
            c
        } else {
            m
        }
    }
}

/// Leftmost position with the least accumulated cost in line `y` over
/// positions `lo ..= hi`.
pub open spec fn best_in_range(g: Seq<Seq<u64>>, y: int, lo: int, hi: int) -> int
    decreases hi - lo,
{
    if lo >= hi {
        lo
    } else {
        let b = best_in_range(g, y, lo, hi - 1);
        if dp_cost(g, y, hi) < dp_cost(g, y, b) {
            hi
        } else {
            b
        }
    }
}

/// The predecessor cell that gives cell (y, x) its accumulated cost:
/// the leftmost minimum over the window in line y - 1.
pub open spec fn best_prev(g: Seq<Seq<u64>>, y: int, x: int) -> int {
    best_in_range(g, y - 1, window_lo(x), window_hi(x, g[0].len() as int))
}

/// The column the minimal seam passes through in line `y`: in the last
/// line, the leftmost position of least accumulated cost; above it, the
/// best predecessor of the seam cell one line below.
pub open spec fn seam_col(g: Seq<Seq<u64>>, y: int) -> int
    decreases g.len() - y,
{
    if y >= g.len() - 1 {
        best_in_range(g, g.len() - 1, 0, g[0].len() - 1)
    } else {
        best_prev(g, y + 1, seam_col(g, y + 1))
    }
}

/// `best_in_range` stays inside the range it searches.
pub proof fn lemma_best_in_range_bounds(g: Seq<Seq<u64>>, y: int, lo: int, hi: int)
    requires
        lo <= hi,
    ensures
        lo <= best_in_range(g, y, lo, hi) <= hi,
    decreases hi - lo,
{
    if lo < hi {
        lemma_best_in_range_bounds(g, y, lo, hi - 1);
    }
}

/// `best_in_range` attains the least cost of its range.
pub proof fn lemma_best_in_range_min(g: Seq<Seq<u64>>, y: int, lo: int, hi: int)
    requires
        lo <= hi,
    ensures
        dp_cost(g, y, best_in_range(g, y, lo, hi)) == min_cost_in(g, y, lo, hi),
    decreases hi - lo,
{
    if lo < hi {
        lemma_best_in_range_min(g, y, lo, hi - 1);
    }
}

/// Every seam cell lies inside the grid.
pub proof fn lemma_seam_col_in_range(g: Seq<Seq<u64>>, m: int, n: int, y: int)
    requires
        grid_wf(g, m, n),
        0 <= y < m,
    ensures
        0 <= seam_col(g, y) < n,
    decreases m - y,
{
    if y >= m - 1 {
        lemma_best_in_range_bounds(g, m - 1, 0, n - 1);
    } else {
        lemma_seam_col_in_range(g, m, n, y + 1);
        let s = seam_col(g, y + 1);
        lemma_best_in_range_bounds(g, y, window_lo(s), window_hi(s, n));
    }
}

/// Adjacent seam cells differ in position by at most one: the seam is a
/// connected path.
pub proof fn lemma_seam_connected(g: Seq<Seq<u64>>, m: int, n: int, y: int)
    requires
        grid_wf(g, m, n),
        0 <= y < m - 1,
    ensures
        seam_col(g, y + 1) - 1 <= seam_col(g, y) <= seam_col(g, y + 1) + 1,
{
    lemma_seam_col_in_range(g, m, n, y + 1);
    let s = seam_col(g, y + 1);
    lemma_best_in_range_bounds(g, y, window_lo(s), window_hi(s, n));
}

/// Accumulated costs stay below `(y + 1)` times the largest single energy,
/// so they fit in 64 bits for any grid of 32-bit energies.
pub proof fn lemma_dp_cost_bounds(g: Seq<Seq<u64>>, m: int, n: int, y: int, x: int)
    requires
        grid_wf(g, m, n),
        0 <= y < m,
        0 <= x < n,
    ensures
        0 <= dp_cost(g, y, x) <= (y + 1) * (u32::MAX as int),
    decreases y, 0int,
{
    if y > 0 {
        lemma_min_cost_in_bounds(g, m, n, y - 1, window_lo(x), window_hi(x, n));
    }
}

/// Bound on the least accumulated cost over a window, by induction with
/// `lemma_dp_cost_bounds`.
pub proof fn lemma_min_cost_in_bounds(g: Seq<Seq<u64>>, m: int, n: int, y: int, lo: int, hi: int)
    requires
        grid_wf(g, m, n),
        0 <= y < m,
        0 <= lo <= hi < n,
    ensures
        0 <= min_cost_in(g, y, lo, hi) <= (y + 1) * (u32::MAX as int),
    decreases y, hi - lo + 1,
{
    if lo >= hi {
        lemma_dp_cost_bounds(g, m, n, y, lo);
    } else {
        lemma_min_cost_in_bounds(g, m, n, y, lo, hi - 1);
        lemma_dp_cost_bounds(g, m, n, y, hi);
    }
}

/// Total energy of a connected path: entry `i` of `cols` is the path's
/// position in line `i`, and every visited cell's energy is added up.
pub open spec fn path_cost(g: Seq<Seq<u64>>, cols: Seq<int>) -> int
    decreases cols.len(),
{
    if cols.len() == 0 {
        0
    } else {
        path_cost(g, cols.drop_last()) + g[cols.len() - 1][cols.last()]
    }
}

/// The minimal seam as a whole path, first line first.
pub open spec fn seam_path(g: Seq<Seq<u64>>) -> Seq<int> {
    Seq::new(g.len(), |y: int| seam_col(g, y))
}

/// The least cost of a window bounds the cost of each of its cells.
proof fn lemma_min_cost_in_le(g: Seq<Seq<u64>>, y: int, lo: int, hi: int, c: int)
    requires
        lo <= c <= hi,
    ensures
        min_cost_in(g, y, lo, hi) <= dp_cost(g, y, c),
    decreases hi - lo,
{
    if c < hi {
        lemma_min_cost_in_le(g, y, lo, hi - 1, c);
    }
}

/// The accumulated cost of a cell bounds the cost of every connected
/// path from the first line down to that cell.
proof fn lemma_dp_cost_le_path(g: Seq<Seq<u64>>, m: int, n: int, cols: Seq<int>)
    requires
        grid_wf(g, m, n),
        1 <= cols.len() <= m,
        forall|i: int| 0 <= i < cols.len() ==> 0 <= #[trigger] cols[i] < n,
        forall|i: int|
            #![trigger cols[i]]
            0 <= i < cols.len() - 1 ==> -1 <= cols[i + 1] - cols[i] <= 1,
    ensures
        dp_cost(g, cols.len() - 1, cols.last()) <= path_cost(g, cols),
    decreases cols.len(),
{
    let y = cols.len() - 1;
    if y > 0 {
        let prev = cols.drop_last();
        assert forall|i: int| 0 <= i < prev.len() implies 0 <= #[trigger] prev[i] < n by {
            assert(prev[i] == cols[i]);
        }
        assert forall|i: int| #![trigger prev[i]] 0 <= i < prev.len() - 1 implies -1 <= prev[i + 1]
            - prev[i] <= 1 by {
            assert(prev[i] == cols[i]);
            assert(prev[i + 1] == cols[i + 1]);
        }
        lemma_dp_cost_le_path(g, m, n, prev);
        let x = cols[y];
        let xp = cols[y - 1];
        assert(-1 <= x - xp <= 1);
        assert(g[0].len() as int == n);
        lemma_min_cost_in_le(g, y - 1, window_lo(x), window_hi(x, n), xp);
        assert(min_cost_in(g, y - 1, window_lo(x), window_hi(x, n)) <= dp_cost(g, y - 1, xp));
        assert(dp_cost(g, y, x) == g[y][x] + min_cost_in(g, y - 1, window_lo(x), window_hi(x, n)));
        assert(prev.last() == xp);
        assert(dp_cost(g, y - 1, xp) <= path_cost(g, prev));
        assert(path_cost(g, cols) == path_cost(g, prev) + g[y][x]);
        assert(dp_cost(g, y, cols.last()) <= path_cost(g, cols));
    } else {
        assert(path_cost(g, cols.drop_last()) == 0);
        assert(path_cost(g, cols) == g[0][cols.last()]);
        assert(dp_cost(g, 0, cols.last()) == g[0][cols.last()]);
    }
}

/// Walking the seam from the first line to line `y` costs exactly the
/// accumulated cost of its cell there: the seam attains the optimum the
/// dynamic program computes.
proof fn lemma_seam_path_cost(g: Seq<Seq<u64>>, m: int, n: int, y: int)
    requires
        grid_wf(g, m, n),
        0 <= y < m,
    ensures
        path_cost(g, seam_path(g).take(y + 1)) == dp_cost(g, y, seam_col(g, y)),
    decreases y,
{
    let sp = seam_path(g);
    assert(sp.take(y + 1).drop_last() =~= sp.take(y));
    assert(sp.take(y + 1).last() == seam_col(g, y));
    if y > 0 {
        lemma_seam_path_cost(g, m, n, y - 1);
        let s = seam_col(g, y);
        let sprev = seam_col(g, y - 1);
        lemma_seam_col_in_range(g, m, n, y);
        assert(g[0].len() as int == n);
        lemma_best_in_range_min(g, y - 1, window_lo(s), window_hi(s, n));
        assert(sprev == best_prev(g, y, s));
        assert(min_cost_in(g, y - 1, window_lo(s), window_hi(s, n)) == dp_cost(g, y - 1, sprev));
        assert(dp_cost(g, y, s) == g[y][s] + min_cost_in(g, y - 1, window_lo(s), window_hi(s, n)));
        assert(path_cost(g, sp.take(y + 1)) == path_cost(g, sp.take(y)) + g[y][s]);
    } else {
        assert(path_cost(g, sp.take(0int)) == 0);
        assert(path_cost(g, sp.take(1)) == g[0][seam_col(g, 0)]);
    }
}

/// The found seam is globally minimal: no connected path from the first
/// line to the last has a smaller total energy.
pub proof fn lemma_seam_minimal(g: Seq<Seq<u64>>, m: int, n: int, cols: Seq<int>)
    requires
        grid_wf(g, m, n),
        cols.len() == m,
        forall|i: int| 0 <= i < m ==> 0 <= #[trigger] cols[i] < n,
        forall|i: int| 0 <= i < m - 1 ==> -1 <= #[trigger] (cols[i + 1] - cols[i]) <= 1,
    ensures
        path_cost(g, seam_path(g)) <= path_cost(g, cols),
{
    lemma_seam_path_cost(g, m, n, m - 1);
    assert(seam_path(g).take(m) =~= seam_path(g));
    lemma_dp_cost_le_path(g, m, n, cols);
    lemma_best_in_range_min(g, m - 1, 0, n - 1);
    lemma_min_cost_in_le(g, m - 1, 0, n - 1, cols[m - 1]);
    assert(cols.last() == cols[m - 1]);
    assert(seam_col(g, m - 1) == best_in_range(g, m - 1, 0, n - 1));
}

/// Offsets of neighboring lines in a row-major matrix of line length `n`.
proof fn lemma_row_offsets(y: int, n: int)
    ensures
        (y + 1) * n == y * n + n,
        (y - 1) * n == y * n - n,
{
    vstd::arithmetic::mul::lemma_mul_is_distributive_add_other_way(n, y, 1);
    vstd::arithmetic::mul::lemma_mul_is_distributive_sub_other_way(n, y, 1);
}

/// An accumulated cost of at most `k` maximal energies fits in 64 bits.
proof fn lemma_acc_cost_fits(k: int)
    by (nonlinear_arith)
    requires
        0 <= k <= 0x1_0000_0000,
    ensures
        k * (u32::MAX as int) < 0x1_0000_0000_0000_0000,
{
}

/// One entry of the cost matrix: the accumulated cost of the cheapest
/// path ending at a cell, and the predecessor position it came from.
#[derive(Clone, Copy)]
struct Energy {
    value: u64,
    backptr: usize,
}

/// The scratch cost matrix of a seam search, allocated once per resize
/// and refilled in full by every search pass.
pub struct EnergyMatrix(Vec<Energy>);

/// Matrix entry `i` holds the finished values of grid cell
/// (i / n, i % n): its accumulated cost, and for lines after the first
/// the position the cost came from.
spec fn cell_ok(mat: Seq<Energy>, g: Seq<Seq<u64>>, n: int, i: int) -> bool {
    &&& mat[i].value == dp_cost(g, i / n, i % n)
    &&& mat[i].backptr == (if i / n == 0 {
        0int
    } else {
        best_prev(g, i / n, i % n)
    })
}

impl EnergyMatrix {
    /// How many entries the matrix holds.
    pub closed spec fn spec_len(&self) -> nat {
        self.0@.len()
    }

    /// Scratch matrix with one entry per pixel of `image`.
    pub fn new(image: &Image) -> (m: EnergyMatrix)
        requires
            image@.w * image@.h <= usize::MAX,
        ensures
            m.spec_len() == image@.w * image@.h,
    {
        let wu = image.width() as usize;
        let hu = image.height() as usize;
        let total = wu * hu;
        let mut v: Vec<Energy> = Vec::new();
        while v.len() < total
            invariant
                v@.len() <= total,
            decreases total - v@.len(),
        {
            v.push(Energy { value: 0, backptr: 0 });
        }
        EnergyMatrix(v)
    }
}

/// The seam is a function of the energy grid alone: any two column
/// sequences that each match `seam_col` line for line are equal. Two
/// seam searches over the same image and energy function therefore
/// return the same seam.
pub proof fn lemma_seam_deterministic(g: Seq<Seq<u64>>, m: int, s1: Seq<usize>, s2: Seq<usize>)
    requires
        s1.len() == m,
        s2.len() == m,
        forall|i: int| 0 <= i < m ==> s1[i] == seam_col(g, m - 1 - i),
        forall|i: int| 0 <= i < m ==> s2[i] == seam_col(g, m - 1 - i),
    ensures
        s1 == s2,
{
    assert(s1 =~= s2);
}

/// Find the vertical seam of least total energy: one column per row,
/// bottom-to-top, adjacent entries at most one column apart, with ties
/// broken toward the leftmost column. The result is exactly the seam
/// `seam_col` describes on the energy grid of the image, so it depends
/// on nothing but the image contents and the energy function.
#[verifier::loop_isolation(false)]
#[verifier::rlimit(60)]
pub fn find_vertical_seam<F: EnergyFunction>(
    image: &Image,
    energy_function: F,
    energy_matrix: &mut EnergyMatrix,
) -> (seam: Vec<usize>)
    requires
        image.wf(),
        1 <= image@.w,
        1 <= image@.h,
        image@.w * image@.h <= old(energy_matrix).spec_len(),
    ensures
        final(energy_matrix).spec_len() == old(energy_matrix).spec_len(),
        seam@.len() == image@.h,
        forall|i: int| 0 <= i < image@.h ==> #[trigger] seam@[i] == seam_col(
            vgrid(energy_function, image@),
            image@.h - 1 - i,
        ),
        forall|i: int| 0 <= i < image@.h ==> #[trigger] seam@[i] < image@.w,
        forall|i: int|
            #![trigger seam@[i]]
            0 <= i < image@.h - 1 ==> seam@[i] - seam@[i + 1] <= 1 && seam@[i + 1] - seam@[i]
                <= 1,
{
    let ghost iv = image@;
    let ghost g = vgrid(energy_function, iv);
    let ghost m = iv.h;
    let ghost n = iv.w;

    let w = image.width();
    let h = image.height();
    let wu = w as usize;
    let hu = h as usize;
    let mlen = energy_matrix.0.len();

    proof {
        assert forall|y: int| 0 <= y < m implies (#[trigger] g[y]).len() == n by {}
        assert forall|y: int, x: int| 0 <= y < m && 0 <= x < n implies #[trigger] g[y][x]
            <= u32::MAX by {}
        assert(grid_wf(g, m, n));
    }

    // First row: each cell costs its own energy.
    let mut x: usize = 0;
    while x < wu
        invariant
            x <= wu,
            energy_matrix.0@.len() == mlen,
            forall|i: int| 0 <= i < x ==> #[trigger] cell_ok(energy_matrix.0@, g, n, i),
        decreases wu - x,
    {
        proof {
            lemma_grid_index(x as int, 0, n, m);
        }
        let e = energy_function.energy_at(image, x as u32, 0);
        let ghost mat0 = energy_matrix.0@;
        energy_matrix.0[x] = Energy { value: e as u64, backptr: 0 };
        proof {
            vstd::arithmetic::div_mod::lemma_fundamental_div_mod_converse(x as int, n, 0, x as int);
            assert(cell_ok(energy_matrix.0@, g, n, x as int));
            assert forall|i: int| 0 <= i < x + 1 implies #[trigger] cell_ok(
                energy_matrix.0@,
                g,
                n,
                i,
            ) by {
                if i < x {
                    assert(cell_ok(mat0, g, n, i));
                    assert(energy_matrix.0@[i] == mat0[i]);
                }
            }
        }
        x += 1;
    }

    // Each further row: a cell costs its own energy plus the least
    // accumulated cost among its up-to-three predecessors.
    let mut y: usize = 1;
    while y < hu
        invariant
            1 <= y <= hu,
            energy_matrix.0@.len() == mlen,
            forall|i: int| 0 <= i < y * n ==> #[trigger] cell_ok(energy_matrix.0@, g, n, i),
        decreases hu - y,
    {
        proof {
            lemma_grid_index(0, y as int, n, m);
            lemma_grid_index(0, y as int - 1, n, m);
            lemma_row_offsets(y as int, n);
        }
        let prev = (y - 1) * wu;
        let row = y * wu;
        let mut x: usize = 0;
        while x < wu
            invariant
                x <= wu,
                energy_matrix.0@.len() == mlen,
                forall|i: int| 0 <= i < y * n + x ==> #[trigger] cell_ok(energy_matrix.0@, g, n, i),
            decreases wu - x,
        {
            let lo = if x == 0 { 0 } else { x - 1 };
            let hi = if x + 1 < wu { x + 1 } else { wu - 1 };
            proof {
                assert(lo as int == window_lo(x as int));
                assert(hi as int == window_hi(x as int, n));
                lemma_grid_index(lo as int, y as int - 1, n, m);
                vstd::arithmetic::div_mod::lemma_fundamental_div_mod_converse(
                    (y - 1) * n + lo,
                    n,
                    y as int - 1,
                    lo as int,
                );
                assert(cell_ok(energy_matrix.0@, g, n, (y - 1) * n + lo));
            }
            let mut best = lo;
            let mut best_val = energy_matrix.0[prev + lo].value;
            let mut c = lo + 1;
            while c <= hi
                invariant
                    lo < c <= hi + 1,
                    lo <= best <= hi,
                    best == best_in_range(g, y as int - 1, lo as int, c as int - 1),
                    best_val == dp_cost(g, y as int - 1, best as int),
                    best_val == min_cost_in(g, y as int - 1, lo as int, c as int - 1),
                decreases hi + 1 - c,
            {
                proof {
                    lemma_grid_index(c as int, y as int - 1, n, m);
                    vstd::arithmetic::div_mod::lemma_fundamental_div_mod_converse(
                        (y - 1) * n + c,
                        n,
                        y as int - 1,
                        c as int,
                    );
                    assert(cell_ok(energy_matrix.0@, g, n, (y - 1) * n + c));
                }
                let v = energy_matrix.0[prev + c].value;
                if v < best_val {
                    best = c;
                    best_val = v;
                }
                c += 1;
            }
            let e = energy_function.energy_at(image, x as u32, y as u32);
            proof {
                lemma_min_cost_in_bounds(g, m, n, y as int - 1, lo as int, hi as int);
                lemma_acc_cost_fits(y as int + 1);
                lemma_grid_index(x as int, y as int, n, m);
            }
            let ghost mat0 = energy_matrix.0@;
            energy_matrix.0[row + x] = Energy { value: best_val + (e as u64), backptr: best };
            proof {
                vstd::arithmetic::div_mod::lemma_fundamental_div_mod_converse(
                    y * n + x,
                    n,
                    y as int,
                    x as int,
                );
                assert(cell_ok(energy_matrix.0@, g, n, y * n + x));
                assert forall|i: int| 0 <= i < y * n + x + 1 implies #[trigger] cell_ok(
                    energy_matrix.0@,
                    g,
                    n,
                    i,
                ) by {
                    if i < y * n + x {
                        assert(cell_ok(mat0, g, n, i));
                        assert(energy_matrix.0@[i] == mat0[i]);
                    }
                }
            }
            x += 1;
        }
        proof {
            assert forall|i: int| 0 <= i < (y + 1) * n implies #[trigger] cell_ok(
                energy_matrix.0@,
                g,
                n,
                i,
            ) by {
                assert(i < y * n + wu);
            }
        }
        y += 1;
    }

    // Scan the last row for the leftmost cell of least accumulated cost.
    proof {
        lemma_grid_index(0, m - 1, n, m);
        lemma_row_offsets(m, n);
        vstd::arithmetic::div_mod::lemma_fundamental_div_mod_converse(
            (m - 1) * n,
            n,
            m - 1,
            0,
        );
        assert(cell_ok(energy_matrix.0@, g, n, (m - 1) * n));
    }
    let last = (hu - 1) * wu;
    let mut endpoint: usize = 0;
    let mut ev = energy_matrix.0[last].value;
    let mut c: usize = 1;
    while c <= wu - 1
        invariant
            1 <= c <= wu,
            endpoint < c,
            endpoint == best_in_range(g, m - 1, 0, c as int - 1),
            ev == dp_cost(g, m - 1, endpoint as int),
        decreases wu - c,
    {
        proof {
            lemma_grid_index(c as int, m - 1, n, m);
            vstd::arithmetic::div_mod::lemma_fundamental_div_mod_converse(
                (m - 1) * n + c,
                n,
                m - 1,
                c as int,
            );
            assert(cell_ok(energy_matrix.0@, g, n, (m - 1) * n + c));
        }
        let v = energy_matrix.0[last + c].value;
        if v < ev {
            endpoint = c;
            ev = v;
        }
        c += 1;
    }
    proof {
        assert(endpoint == seam_col(g, m - 1));
        lemma_seam_col_in_range(g, m, n, m - 1);
    }

    // Walk the back pointers from the endpoint up to the first row.
    let mut seam: Vec<usize> = Vec::new();
    let mut pos = endpoint;
    let mut yy = hu;
    while yy > 0
        invariant
            yy <= hu,
            energy_matrix.0@.len() == mlen,
            seam@.len() == hu - yy,
            forall|i: int| 0 <= i < seam@.len() ==> #[trigger] seam@[i] == seam_col(g, m - 1 - i),
            1 <= yy ==> pos == seam_col(g, yy - 1) && pos < wu,
        decreases yy,
    {
        seam.push(pos);
        if yy > 1 {
            proof {
                lemma_grid_index(pos as int, yy as int - 1, n, m);
                lemma_row_offsets(yy as int, n);
                vstd::arithmetic::mul::lemma_mul_inequality(yy as int, m, n);
                vstd::arithmetic::div_mod::lemma_fundamental_div_mod_converse(
                    (yy - 1) * n + pos,
                    n,
                    yy as int - 1,
                    pos as int,
                );
                assert(cell_ok(energy_matrix.0@, g, n, (yy - 1) * n + pos));
            }
            pos = energy_matrix.0[(yy - 1) * wu + pos].backptr;
            proof {
                lemma_seam_col_in_range(g, m, n, yy as int - 2);
            }
        }
        yy -= 1;
    }

    proof {
        assert forall|i: int| 0 <= i < m implies #[trigger] seam@[i] < n by {
            lemma_seam_col_in_range(g, m, n, m - 1 - i);
        }
        assert forall|i: int| #![trigger seam@[i]] 0 <= i < m - 1 implies seam@[i] - seam@[i + 1]
            <= 1 && seam@[i + 1] - seam@[i] <= 1 by {
            lemma_seam_connected(g, m, n, m - 2 - i);
        }
    }
    seam
}

/// Find the horizontal seam of least total energy: one row per column,
/// right-to-left, adjacent entries at most one row apart, with ties
/// broken toward the topmost row. The search is the exact transpose of
/// the vertical one: grid line `x` is image column `x`.
#[verifier::loop_isolation(false)]
#[verifier::rlimit(60)]
pub fn find_horizontal_seam<F: EnergyFunction>(
    image: &Image,
    energy_function: F,
    energy_matrix: &mut EnergyMatrix,
) -> (seam: Vec<usize>)
    requires
        image.wf(),
        1 <= image@.w,
        1 <= image@.h,
        image@.w * image@.h <= old(energy_matrix).spec_len(),
    ensures
        final(energy_matrix).spec_len() == old(energy_matrix).spec_len(),
        seam@.len() == image@.w,
        forall|i: int| 0 <= i < image@.w ==> #[trigger] seam@[i] == seam_col(
            hgrid(energy_function, image@),
            image@.w - 1 - i,
        ),
        forall|i: int| 0 <= i < image@.w ==> #[trigger] seam@[i] < image@.h,
        forall|i: int|
            #![trigger seam@[i]]
            0 <= i < image@.w - 1 ==> seam@[i] - seam@[i + 1] <= 1 && seam@[i + 1] - seam@[i]
                <= 1,
{
    let ghost iv = image@;
    let ghost g = hgrid(energy_function, iv);
    let ghost m = iv.w;
    let ghost n = iv.h;

    let w = image.width();
    let h = image.height();
    let wu = w as usize;
    let hu = h as usize;
    let mlen = energy_matrix.0.len();

    proof {
        vstd::arithmetic::mul::lemma_mul_is_commutative(iv.w, iv.h);
        assert forall|x: int| 0 <= x < m implies (#[trigger] g[x]).len() == n by {}
        assert forall|x: int, y: int| 0 <= x < m && 0 <= y < n implies #[trigger] g[x][y]
            <= u32::MAX by {}
        assert(grid_wf(g, m, n));
    }

    // First column: each cell costs its own energy.
    let mut y: usize = 0;
    while y < hu
        invariant
            y <= hu,
            energy_matrix.0@.len() == mlen,
            forall|i: int| 0 <= i < y ==> #[trigger] cell_ok(energy_matrix.0@, g, n, i),
        decreases hu - y,
    {
        proof {
            lemma_grid_index(y as int, 0, n, m);
        }
        let e = energy_function.energy_at(image, 0, y as u32);
        let ghost mat0 = energy_matrix.0@;
        energy_matrix.0[y] = Energy { value: e as u64, backptr: 0 };
        proof {
            vstd::arithmetic::div_mod::lemma_fundamental_div_mod_converse(y as int, n, 0, y as int);
            assert(cell_ok(energy_matrix.0@, g, n, y as int));
            assert forall|i: int| 0 <= i < y + 1 implies #[trigger] cell_ok(
                energy_matrix.0@,
                g,
                n,
                i,
            ) by {
                if i < y {
                    assert(cell_ok(mat0, g, n, i));
                    assert(energy_matrix.0@[i] == mat0[i]);
                }
            }
        }
        y += 1;
    }

    // Each further column: a cell costs its own energy plus the least
    // accumulated cost among its up-to-three predecessors.
    let mut x: usize = 1;
    while x < wu
        invariant
            1 <= x <= wu,
            energy_matrix.0@.len() == mlen,
            forall|i: int| 0 <= i < x * n ==> #[trigger] cell_ok(energy_matrix.0@, g, n, i),
        decreases wu - x,
    {
        proof {
            lemma_grid_index(0, x as int, n, m);
            lemma_grid_index(0, x as int - 1, n, m);
            lemma_row_offsets(x as int, n);
        }
        let prev = (x - 1) * hu;
        let col = x * hu;
        let mut y: usize = 0;
        while y < hu
            invariant
                y <= hu,
                energy_matrix.0@.len() == mlen,
                forall|i: int| 0 <= i < x * n + y ==> #[trigger] cell_ok(energy_matrix.0@, g, n, i),
            decreases hu - y,
        {
            let lo = if y == 0 { 0 } else { y - 1 };
            let hi = if y + 1 < hu { y + 1 } else { hu - 1 };
            proof {
                assert(lo as int == window_lo(y as int));
                assert(hi as int == window_hi(y as int, n));
                lemma_grid_index(lo as int, x as int - 1, n, m);
                vstd::arithmetic::div_mod::lemma_fundamental_div_mod_converse(
                    (x - 1) * n + lo,
                    n,
                    x as int - 1,
                    lo as int,
                );
                assert(cell_ok(energy_matrix.0@, g, n, (x - 1) * n + lo));
            }
            let mut best = lo;
            let mut best_val = energy_matrix.0[prev + lo].value;
            let mut c = lo + 1;
            while c <= hi
                invariant
                    lo < c <= hi + 1,
                    lo <= best <= hi,
                    best == best_in_range(g, x as int - 1, lo as int, c as int - 1),
                    best_val == dp_cost(g, x as int - 1, best as int),
                    best_val == min_cost_in(g, x as int - 1, lo as int, c as int - 1),
                decreases hi + 1 - c,
            {
                proof {
                    lemma_grid_index(c as int, x as int - 1, n, m);
                    vstd::arithmetic::div_mod::lemma_fundamental_div_mod_converse(
                        (x - 1) * n + c,
                        n,
                        x as int - 1,
                        c as int,
                    );
                    assert(cell_ok(energy_matrix.0@, g, n, (x - 1) * n + c));
                }
                let v = energy_matrix.0[prev + c].value;
                if v < best_val {
                    best = c;
                    best_val = v;
                }
                c += 1;
            }
            let e = energy_function.energy_at(image, x as u32, y as u32);
            proof {
                lemma_min_cost_in_bounds(g, m, n, x as int - 1, lo as int, hi as int);
                lemma_acc_cost_fits(x as int + 1);
                lemma_grid_index(y as int, x as int, n, m);
            }
            let ghost mat0 = energy_matrix.0@;
            energy_matrix.0[col + y] = Energy { value: best_val + (e as u64), backptr: best };
            proof {
                vstd::arithmetic::div_mod::lemma_fundamental_div_mod_converse(
                    x * n + y,
                    n,
                    x as int,
                    y as int,
                );
                assert(cell_ok(energy_matrix.0@, g, n, x * n + y));
                assert forall|i: int| 0 <= i < x * n + y + 1 implies #[trigger] cell_ok(
                    energy_matrix.0@,
                    g,
                    n,
                    i,
                ) by {
                    if i < x * n + y {
                        assert(cell_ok(mat0, g, n, i));
                        assert(energy_matrix.0@[i] == mat0[i]);
                    }
                }
            }
            y += 1;
        }
        proof {
            assert forall|i: int| 0 <= i < (x + 1) * n implies #[trigger] cell_ok(
                energy_matrix.0@,
                g,
                n,
                i,
            ) by {
                assert(i < x * n + hu);
            }
        }
        x += 1;
    }

    // Scan the last column for the topmost cell of least accumulated cost.
    proof {
        lemma_grid_index(0, m - 1, n, m);
        lemma_row_offsets(m, n);
        vstd::arithmetic::div_mod::lemma_fundamental_div_mod_converse((m - 1) * n, n, m - 1, 0);
        assert(cell_ok(energy_matrix.0@, g, n, (m - 1) * n));
    }
    let last = (wu - 1) * hu;
    let mut endpoint: usize = 0;
    let mut ev = energy_matrix.0[last].value;
    let mut c: usize = 1;
    while c <= hu - 1
        invariant
            1 <= c <= hu,
            endpoint < c,
            endpoint == best_in_range(g, m - 1, 0, c as int - 1),
            ev == dp_cost(g, m - 1, endpoint as int),
        decreases hu - c,
    {
        proof {
            lemma_grid_index(c as int, m - 1, n, m);
            vstd::arithmetic::div_mod::lemma_fundamental_div_mod_converse(
                (m - 1) * n + c,
                n,
                m - 1,
                c as int,
            );
            assert(cell_ok(energy_matrix.0@, g, n, (m - 1) * n + c));
        }
        let v = energy_matrix.0[last + c].value;
        if v < ev {
            endpoint = c;
            ev = v;
        }
        c += 1;
    }
    proof {
        assert(endpoint == seam_col(g, m - 1));
        lemma_seam_col_in_range(g, m, n, m - 1);
    }

    // Walk the back pointers from the endpoint back to the first column.
    let mut seam: Vec<usize> = Vec::new();
    let mut pos = endpoint;
    let mut xx = wu;
    while xx > 0
        invariant
            xx <= wu,
            energy_matrix.0@.len() == mlen,
            seam@.len() == wu - xx,
            forall|i: int| 0 <= i < seam@.len() ==> #[trigger] seam@[i] == seam_col(g, m - 1 - i),
            1 <= xx ==> pos == seam_col(g, xx - 1) && pos < hu,
        decreases xx,
    {
        seam.push(pos);
        if xx > 1 {
            proof {
                lemma_grid_index(pos as int, xx as int - 1, n, m);
                lemma_row_offsets(xx as int, n);
                vstd::arithmetic::mul::lemma_mul_inequality(xx as int, m, n);
                vstd::arithmetic::div_mod::lemma_fundamental_div_mod_converse(
                    (xx - 1) * n + pos,
                    n,
                    xx as int - 1,
                    pos as int,
                );
                assert(cell_ok(energy_matrix.0@, g, n, (xx - 1) * n + pos));
            }
            pos = energy_matrix.0[(xx - 1) * hu + pos].backptr;
            proof {
                lemma_seam_col_in_range(g, m, n, xx as int - 2);
            }
        }
        xx -= 1;
    }

    proof {
        assert forall|i: int| 0 <= i < m implies #[trigger] seam@[i] < n by {
            lemma_seam_col_in_range(g, m, n, m - 1 - i);
        }
        assert forall|i: int| #![trigger seam@[i]] 0 <= i < m - 1 implies seam@[i] - seam@[i + 1]
            <= 1 && seam@[i + 1] - seam@[i] <= 1 by {
            lemma_seam_connected(g, m, n, m - 2 - i);
        }
    }
    seam
}

} // verus!
