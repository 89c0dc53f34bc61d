//! Two-dimensional Ising lattice: L x L spins of +1/-1 on a periodic
//! square lattice, stored row-major (index = y * L + x, row 0 at the top).

use vstd::prelude::*;

use crate::sums::{pred, succ, sum};

verus! {

/// Largest supported side length. It keeps every count of sites, and every
/// energy (at most 4 per site), well inside `i64` and `usize`.
pub const MAX_SIDE: usize = 0x4000_0000;

/// The spin at column `x`, row `y` of the row-major spin sequence `s`.
pub open spec fn spin(s: Seq<i8>, l: int, x: int, y: int) -> int {
    s[y * l + x] as int
}

/// Every entry is +1 or -1.
pub open spec fn valid_spins(s: Seq<i8>) -> bool {
    forall|k: int| 0 <= k < s.len() ==> #[trigger] s[k] == 1 || s[k] == -1
}

/// Sum of the four periodic neighbours of (x, y):
/// (x+1, y), (x-1, y), (x, y+1), (x, y-1), wrapping at both boundaries.
pub open spec fn neighbour_total(s: Seq<i8>, l: int, x: int, y: int) -> int {
    spin(s, l, succ(x, l), y) + spin(s, l, pred(x, l), y) + spin(s, l, x, succ(y, l)) + spin(
        s,
        l,
        x,
        pred(y, l),
    )
}

/// The four periodic neighbour indices of site `i` on an l x l lattice:
/// (x+1,y), (x-1,y), (x,y+1), (x,y-1) with x = i % l, y = i / l.
pub open spec fn neighbour_sites(l: int, i: int) -> Seq<int> {
    seq![
        (i / l) * l + succ(i % l, l),
        (i / l) * l + pred(i % l, l),
        succ(i / l, l) * l + i % l,
        pred(i / l, l) * l + i % l,
    ]
}

/// Bond between (x, y) and its right neighbour.
pub open spec fn right_term(s: Seq<i8>, l: int, y: int, x: int) -> int {
    spin(s, l, x, y) * spin(s, l, succ(x, l), y)
}

/// Bond between (x, y) and its left neighbour.
pub open spec fn left_term(s: Seq<i8>, l: int, y: int, x: int) -> int {
    spin(s, l, x, y) * spin(s, l, pred(x, l), y)
}

/// Bond between (x, y) and the neighbour below it (row y + 1).
pub open spec fn down_term(s: Seq<i8>, l: int, y: int, x: int) -> int {
    spin(s, l, x, y) * spin(s, l, x, succ(y, l))
}

/// Bond between (x, y) and the neighbour above it (row y - 1).
pub open spec fn up_term(s: Seq<i8>, l: int, y: int, x: int) -> int {
    spin(s, l, x, y) * spin(s, l, x, pred(y, l))
}

/// `s_i` times its neighbour sum.
pub open spec fn weighted_term(s: Seq<i8>, l: int, y: int, x: int) -> int {
    spin(s, l, x, y) * neighbour_total(s, l, x, y)
}

pub open spec fn right_bonds(s: Seq<i8>, l: int, y: int) -> int {
    sum(l, |x: int| right_term(s, l, y, x))
}

pub open spec fn left_bonds(s: Seq<i8>, l: int, y: int) -> int {
    sum(l, |x: int| left_term(s, l, y, x))
}

pub open spec fn down_bonds(s: Seq<i8>, l: int, y: int) -> int {
    sum(l, |x: int| down_term(s, l, y, x))
}

pub open spec fn up_bonds(s: Seq<i8>, l: int, y: int) -> int {
    sum(l, |x: int| up_term(s, l, y, x))
}

pub open spec fn weighted_row(s: Seq<i8>, l: int, y: int) -> int {
    sum(l, |x: int| weighted_term(s, l, y, x))
}

/// `sum_i s_i * (neighbour sum of i)`: every nearest-neighbour pair counted
/// from both of its ends.
pub open spec fn weighted_total(s: Seq<i8>, l: int) -> int {
    sum(l, |y: int| weighted_row(s, l, y))
}

/// Ising energy `E = -sum s_i s_j` over the bonds of the periodic lattice,
/// each bond (to the right and downwards of every site) counted once.
pub open spec fn energy_of(s: Seq<i8>, l: int) -> int {
    -(sum(l, |y: int| right_bonds(s, l, y)) + sum(l, |y: int| down_bonds(s, l, y)))
}

/// Sum of all spins.
pub open spec fn spin_total(s: Seq<i8>) -> int {
    sum(s.len() as int, |k: int| s[k] as int)
}

/// The spin sequence with the spin at `i` reversed.
pub open spec fn flipped(s: Seq<i8>, i: int) -> Seq<i8> {
    s.update(i, (-s[i]) as i8)
}

/// An L x L Ising lattice. `spins` has length l*l and holds +1 or -1 at
/// index y * l + x.
#[derive(Clone, Debug, PartialEq)]
pub struct Lattice {
    pub l: usize,
    pub spins: Vec<i8>,
}

impl Lattice {
    /// Well-formedness: l*l spins, each +1 or -1.
    pub open spec fn wf(&self) -> bool {
        &&& self.l <= MAX_SIDE
        &&& self.l * self.l <= usize::MAX
        &&& self.spins@.len() == self.l * self.l
        &&& valid_spins(self.spins@)
    }

    /// Column of site `i`.
    pub open spec fn col(&self, i: int) -> int {
        i % (self.l as int)
    }

    /// Row of site `i`.
    pub open spec fn row(&self, i: int) -> int {
        i / (self.l as int)
    }
}

/// Sites (x, y) with 0 <= x, y < l are exactly the indices below l*l.
pub proof fn lemma_site_in_range(l: int, x: int, y: int)
    requires
        0 <= x < l,
        0 <= y < l,
    ensures
        0 <= y * l + x < l * l,
{
    crate::grid::lemma_cell_in_range(l, l, x, y);
}

/// Distinct coordinates give distinct indices.
pub proof fn lemma_site_unique(l: int, x: int, y: int, x2: int, y2: int)
    requires
        0 <= x < l,
        0 <= x2 < l,
        0 <= y,
        0 <= y2,
        y * l + x == y2 * l + x2,
    ensures
        x == x2,
        y == y2,
{
    crate::grid::lemma_cell_unique(l, x, y, x2, y2);
}

/// Every index below l*l is a site (col, row).
pub proof fn lemma_index_site(l: int, i: int)
    requires
        0 < l,
        0 <= i < l * l,
    ensures
        0 <= i % l < l,
        0 <= i / l < l,
        i == (i / l) * l + i % l,
{
    crate::grid::lemma_index_cell(l, l, i);
}

/// The neighbours of a site are sites.
pub proof fn lemma_neighbour_sites_in_range(l: int, i: int)
    requires
        0 < l,
        0 <= i < l * l,
    ensures
        forall|k: int| 0 <= k < 4 ==> 0 <= #[trigger] neighbour_sites(l, i)[k] < l * l,
{
    lemma_index_site(l, i);
    let x = i % l;
    let y = i / l;
    lemma_succ_pred(x, l);
    lemma_succ_pred(y, l);
    lemma_site_in_range(l, succ(x, l), y);
    lemma_site_in_range(l, pred(x, l), y);
    lemma_site_in_range(l, x, succ(y, l));
    lemma_site_in_range(l, x, pred(y, l));
}

/// `pred` and `succ` stay in `0..n` and undo each other.
pub proof fn lemma_succ_pred(x: int, n: int)
    requires
        0 <= x < n,
    ensures
        0 <= succ(x, n) < n,
        0 <= pred(x, n) < n,
        pred(succ(x, n), n) == x,
        succ(pred(x, n), n) == x,
        n >= 2 ==> succ(x, n) != x && pred(x, n) != x,
{
}

/// One row of the neighbour-weighted sum splits into its four bond sums.
proof fn lemma_weighted_row_split(s: Seq<i8>, l: int, y: int)
    ensures
        weighted_row(s, l, y) == right_bonds(s, l, y) + left_bonds(s, l, y) + down_bonds(s, l, y)
            + up_bonds(s, l, y),
{
    let fr = |x: int| right_term(s, l, y, x);
    let fl = |x: int| left_term(s, l, y, x);
    let fd = |x: int| down_term(s, l, y, x);
    let fu = |x: int| up_term(s, l, y, x);
    let frl = |x: int| fr(x) + fl(x);
    let fdu = |x: int| fd(x) + fu(x);
    let fw = |x: int| weighted_term(s, l, y, x);
    crate::sums::lemma_sum_add(l, fr, fl);
    crate::sums::lemma_sum_add(l, fd, fu);
    crate::sums::lemma_sum_add(l, frl, fdu);
    assert forall|x: int| 0 <= x < l implies #[trigger] fw(x) == frl(x) + fdu(x) by {
        let a = spin(s, l, x, y);
        let r = spin(s, l, succ(x, l), y);
        let b = spin(s, l, pred(x, l), y);
        let d = spin(s, l, x, succ(y, l));
        let u = spin(s, l, x, pred(y, l));
        assert(a * (r + b + d + u) == a * r + a * b + a * d + a * u) by (nonlinear_arith);
    }
    crate::sums::lemma_sum_congr(l, fw, |x: int| frl(x) + fdu(x));
}

/// Counting every bond from both of its ends gives twice the bond sum:
/// `sum_i s_i * (neighbour sum of i) == -2 E`.
pub proof fn lemma_weighted_total_is_twice_bonds(s: Seq<i8>, l: int)
    requires
        0 <= l,
    ensures
        weighted_total(s, l) == -2 * energy_of(s, l),
{
    if l == 0 {
        return;
    }
    let rr = |y: int| right_bonds(s, l, y);
    let lr = |y: int| left_bonds(s, l, y);
    let dr = |y: int| down_bonds(s, l, y);
    let ur = |y: int| up_bonds(s, l, y);
    let wr = |y: int| weighted_row(s, l, y);
    // Along each row, left bonds are the right bonds shifted by one site.
    assert forall|y: int| 0 <= y < l implies #[trigger] lr(y) == rr(y) by {
        let fl = |x: int| left_term(s, l, y, x);
        let fr = |x: int| right_term(s, l, y, x);
        crate::sums::lemma_sum_rotate(l, fl);
        assert forall|x: int| 0 <= x < l implies #[trigger] fl(succ(x, l)) == fr(x) by {
            lemma_succ_pred(x, l);
        }
        crate::sums::lemma_sum_congr(l, |x: int| fl(succ(x, l)), fr);
    }
    crate::sums::lemma_sum_congr(l, lr, rr);
    // Between rows, the up bonds of row y+1 are the down bonds of row y.
    assert forall|y: int| 0 <= y < l implies #[trigger] ur(succ(y, l)) == dr(y) by {
        lemma_succ_pred(y, l);
        let fu = |x: int| up_term(s, l, succ(y, l), x);
        let fd = |x: int| down_term(s, l, y, x);
        crate::sums::lemma_sum_congr(l, fu, fd);
    }
    crate::sums::lemma_sum_rotate(l, ur);
    crate::sums::lemma_sum_congr(l, |y: int| ur(succ(y, l)), dr);
    // Split every row and add up.
    assert forall|y: int| 0 <= y < l implies #[trigger] wr(y) == (rr(y) + lr(y)) + (dr(y) + ur(
        y,
    )) by {
        lemma_weighted_row_split(s, l, y);
    }
    let rl = |y: int| rr(y) + lr(y);
    let du = |y: int| dr(y) + ur(y);
    crate::sums::lemma_sum_add(l, rr, lr);
    crate::sums::lemma_sum_add(l, dr, ur);
    crate::sums::lemma_sum_add(l, rl, du);
    crate::sums::lemma_sum_congr(l, wr, |y: int| rl(y) + du(y));
}

/// Flipping site (x0, y0) reverses exactly that one spin.
pub proof fn lemma_flipped_spin(s: Seq<i8>, l: int, x0: int, y0: int, x: int, y: int)
    requires
        valid_spins(s),
        s.len() == l * l,
        0 <= x0 < l,
        0 <= y0 < l,
        0 <= x < l,
        0 <= y < l,
    ensures
        spin(flipped(s, y0 * l + x0), l, x, y) == if x == x0 && y == y0 {
            -spin(s, l, x, y)
        } else {
            spin(s, l, x, y)
        },
{
    lemma_site_in_range(l, x0, y0);
    lemma_site_in_range(l, x, y);
    if y * l + x == y0 * l + x0 {
        lemma_site_unique(l, x, y, x0, y0);
        assert(s[y0 * l + x0] == 1 || s[y0 * l + x0] == -1);
    }
}

/// The energy change of a single spin flip at (x0, y0) on a lattice of side
/// at least 2 is `2 * s * (neighbour sum)`, measured before the flip.
pub proof fn lemma_flip_energy_change(s: Seq<i8>, l: int, x0: int, y0: int)
    requires
        2 <= l,
        valid_spins(s),
        s.len() == l * l,
        0 <= x0 < l,
        0 <= y0 < l,
    ensures
        energy_of(flipped(s, y0 * l + x0), l) - energy_of(s, l) == 2 * spin(s, l, x0, y0)
            * neighbour_total(s, l, x0, y0),
{
    let t = flipped(s, y0 * l + x0);
    assert forall|x: int, y: int| 0 <= x < l && 0 <= y < l implies #[trigger] spin(t, l, x, y) == if x
        == x0 && y == y0 {
        -spin(s, l, x, y)
    } else {
        spin(s, l, x, y)
    } by {
        lemma_flipped_spin(s, l, x0, y0, x, y);
    }
    lemma_succ_pred(x0, l);
    lemma_succ_pred(y0, l);
    let px = pred(x0, l);
    let py = pred(y0, l);
    let s0 = spin(s, l, x0, y0);
    let sr = spin(s, l, succ(x0, l), y0);
    let sl = spin(s, l, px, y0);
    let sd = spin(s, l, x0, succ(y0, l));
    let su = spin(s, l, x0, py);

    // Right bonds: only row y0 changes, at x0 and at its left neighbour.
    let rt = |y: int| right_bonds(t, l, y);
    let rs = |y: int| right_bonds(s, l, y);
    assert forall|y: int| 0 <= y < l && y != y0 implies #[trigger] rt(y) == rs(y) by {
        assert forall|x: int| 0 <= x < l implies #[trigger] right_term(t, l, y, x) == right_term(
            s,
            l,
            y,
            x,
        ) by {
            lemma_succ_pred(x, l);
        }
        crate::sums::lemma_sum_congr(
            l,
            |x: int| right_term(t, l, y, x),
            |x: int| right_term(s, l, y, x),
        );
    }
    crate::sums::lemma_sum_diff_one(l, rt, rs, y0);
    assert forall|x: int| 0 <= x < l && x != x0 && x != px implies #[trigger] right_term(
        t,
        l,
        y0,
        x,
    ) == right_term(s, l, y0, x) by {
        lemma_succ_pred(x, l);
    }
    crate::sums::lemma_sum_diff_two(
        l,
        |x: int| right_term(t, l, y0, x),
        |x: int| right_term(s, l, y0, x),
        x0,
        px,
    );
    assert(right_term(t, l, y0, x0) == -s0 * sr);
    assert(right_term(t, l, y0, px) == sl * -s0);
    assert(rt(y0) - rs(y0) == (-s0 * sr - s0 * sr) + (sl * -s0 - sl * s0));

    // Down bonds: rows y0 and the row above it change, each at x0 only.
    let dt = |y: int| down_bonds(t, l, y);
    let ds = |y: int| down_bonds(s, l, y);
    assert forall|y: int| 0 <= y < l && y != y0 && y != py implies #[trigger] dt(y) == ds(y) by {
        lemma_succ_pred(y, l);
        assert forall|x: int| 0 <= x < l implies #[trigger] down_term(t, l, y, x) == down_term(
            s,
            l,
            y,
            x,
        ) by {}
        crate::sums::lemma_sum_congr(
            l,
            |x: int| down_term(t, l, y, x),
            |x: int| down_term(s, l, y, x),
        );
    }
    crate::sums::lemma_sum_diff_two(l, dt, ds, y0, py);
    assert forall|x: int| 0 <= x < l && x != x0 implies #[trigger] down_term(t, l, y0, x)
        == down_term(s, l, y0, x) by {}
    crate::sums::lemma_sum_diff_one(
        l,
        |x: int| down_term(t, l, y0, x),
        |x: int| down_term(s, l, y0, x),
        x0,
    );
    assert forall|x: int| 0 <= x < l && x != x0 implies #[trigger] down_term(t, l, py, x)
        == down_term(s, l, py, x) by {}
    crate::sums::lemma_sum_diff_one(
        l,
        |x: int| down_term(t, l, py, x),
        |x: int| down_term(s, l, py, x),
        x0,
    );
    assert(down_term(t, l, y0, x0) == -s0 * sd);
    assert(down_term(t, l, py, x0) == su * -s0);
    assert(dt(y0) - ds(y0) == -s0 * sd - s0 * sd);
    assert(dt(py) - ds(py) == su * -s0 - su * s0);

    assert(-s0 * sr == -(s0 * sr)) by (nonlinear_arith);
    assert(sl * -s0 == -(sl * s0)) by (nonlinear_arith);
    assert(-s0 * sd == -(s0 * sd)) by (nonlinear_arith);
    assert(su * -s0 == -(su * s0)) by (nonlinear_arith);
    assert(crate::sums::sum(l, rt) - crate::sums::sum(l, rs) == -2 * (s0 * sr) - 2 * (sl * s0));
    assert(crate::sums::sum(l, dt) - crate::sums::sum(l, ds) == -2 * (s0 * sd) - 2 * (su * s0));
    assert(neighbour_total(s, l, x0, y0) == sr + sl + sd + su);
    assert(2 * s0 * (sr + sl + sd + su) == (s0 * sr + s0 * sr) + (sl * s0 + sl * s0) + (s0 * sd
        + s0 * sd) + (su * s0 + su * s0)) by (nonlinear_arith);
}

impl Lattice {
    /// An all-up (+1) lattice of side `l`.
    pub fn all_up(l: usize) -> (r: Lattice)
        requires
            l <= MAX_SIDE,
            l * l <= usize::MAX,
        ensures
            r.wf(),
            r.l == l,
            forall|k: int| 0 <= k < l * l ==> #[trigger] r.spins@[k] == 1,
    {
        let n = l * l;
        let mut spins: Vec<i8> = Vec::with_capacity(n);
        let mut k: usize = 0;
        while k < n
            invariant
                k <= n,
                n == l * l,
                spins@.len() == k,
                forall|j: int| 0 <= j < k ==> #[trigger] spins@[j] == 1,
            decreases n - k,
        {
            spins.push(1);
            k = k + 1;
        }
        Lattice { l, spins }
    }

    /// Spin at site index `i`.
    pub fn get(&self, i: usize) -> (s: i8)
        requires
            self.wf(),
            i < self.spins@.len(),
        ensures
            s == self.spins@[i as int],
            s == 1 || s == -1,
    {
        self.spins[i]
    }

    /// Flip the spin at site index `i`.
    pub fn flip(&mut self, i: usize)
        requires
            old(self).wf(),
            i < old(self).spins@.len(),
        ensures
            final(self).wf(),
            final(self).l == old(self).l,
            final(self).spins@ == flipped(old(self).spins@, i as int),
    {
        let v = self.spins[i];
        assert(v == 1 || v == -1);
        self.spins.set(i, -v);
        proof {
            assert forall|k: int| 0 <= k < self.spins@.len() implies #[trigger] self.spins@[k] == 1
                || self.spins@[k] == -1 by {
                if k != i {
                    assert(self.spins@[k] == old(self).spins@[k]);
                }
            }
        }
    }

    /// Sum of the four periodic neighbours of site `i`: (x+1,y), (x-1,y),
    /// (x,y+1), (x,y-1), wrapping at both boundaries.
    pub fn neighbour_sum(&self, i: usize) -> (r: i8)
        requires
            self.wf(),
            i < self.spins@.len(),
        ensures
            r as int == neighbour_total(self.spins@, self.l as int, self.col(i as int), self.row(i as int)),
            -4 <= r <= 4,
    {
        let l = self.l;
        let x = i % l;
        let y = i / l;
        proof {
            lemma_index_site(l as int, i as int);
        }
        self.neighbour_sum_at(x, y)
    }

    /// The indices of the four periodic neighbours of column `x`, row `y`:
    /// (x+1,y), (x-1,y), (x,y+1), (x,y-1), wrapping at both boundaries.
    fn neighbour_indices(&self, x: usize, y: usize) -> (r: [usize; 4])
        requires
            self.wf(),
            x < self.l,
            y < self.l,
        ensures
            r@[0] == y * self.l + succ(x as int, self.l as int),
            r@[1] == y * self.l + pred(x as int, self.l as int),
            r@[2] == succ(y as int, self.l as int) * self.l + x,
            r@[3] == pred(y as int, self.l as int) * self.l + x,
            forall|k: int| 0 <= k < 4 ==> #[trigger] r@[k] < self.spins@.len(),
    {
        let l = self.l;
        let xr = if x + 1 < l {
            x + 1
        } else {
            0
        };
        let xl = if x == 0 {
            l - 1
        } else {
            x - 1
        };
        let yd = if y + 1 < l {
            y + 1
        } else {
            0
        };
        let yu = if y == 0 {
            l - 1
        } else {
            y - 1
        };
        proof {
            lemma_site_in_range(l as int, xr as int, y as int);
            lemma_site_in_range(l as int, xl as int, y as int);
            lemma_site_in_range(l as int, x as int, yd as int);
            lemma_site_in_range(l as int, x as int, yu as int);
        }
        [y * l + xr, y * l + xl, yd * l + x, yu * l + x]
    }

    /// Neighbour sum at column `x`, row `y`.
    fn neighbour_sum_at(&self, x: usize, y: usize) -> (r: i8)
        requires
            self.wf(),
            x < self.l,
            y < self.l,
        ensures
            r as int == neighbour_total(self.spins@, self.l as int, x as int, y as int),
            -4 <= r <= 4,
    {
        let nb = self.neighbour_indices(x, y);
        let a = self.spins[nb[0]];
        let b = self.spins[nb[1]];
        let c = self.spins[nb[2]];
        let d = self.spins[nb[3]];
        assert(a == 1 || a == -1);
        assert(b == 1 || b == -1);
        assert(c == 1 || c == -1);
        assert(d == 1 || d == -1);
        a + b + c + d
    }

    /// The four periodic neighbour indices of site `i`:
    /// (x+1,y), (x-1,y), (x,y+1), (x,y-1), wrapping at both boundaries.
    pub fn neighbours(&self, i: usize) -> (r: [usize; 4])
        requires
            self.wf(),
            i < self.spins@.len(),
        ensures
            forall|k: int|
                0 <= k < 4 ==> #[trigger] r@[k] as int == neighbour_sites(self.l as int, i as int)[k],
            forall|k: int| 0 <= k < 4 ==> #[trigger] r@[k] < self.spins@.len(),
    {
        let l = self.l;
        proof {
            lemma_index_site(l as int, i as int);
        }
        self.neighbour_indices(i % l, i / l)
    }

    /// Energy change of flipping spin i: 2 * s_i * (s1+s2+s3+s4).
    pub fn delta_e(&self, i: usize) -> (d: i64)
        requires
            self.wf(),
            i < self.spins@.len(),
        ensures
            d == 2 * self.spins@[i as int] * neighbour_total(
                self.spins@,
                self.l as int,
                self.col(i as int),
                self.row(i as int),
            ),
    {
        let s = self.spins[i];
        let r = self.neighbour_sum(i);
        let n: i64 = r as i64;
        assert(-4 <= n <= 4);
        assert(s == 1 || s == -1);
        if s == 1 {
            2 * n
        } else {
            0 - 2 * n
        }
    }

    /// Total energy E = -sum over nearest-neighbour pairs s_i s_j (each bond
    /// counted once), computed as minus half of sum_i s_i * (neighbour sum).
    pub fn energy(&self) -> (e: i64)
        requires
            self.wf(),
        ensures
            e == energy_of(self.spins@, self.l as int),
            2 * e == -weighted_total(self.spins@, self.l as int),
    {
        let l = self.l;
        let ghost s = self.spins@;
        proof {
            assert(l * l <= MAX_SIDE * MAX_SIDE) by (nonlinear_arith)
                requires
                    l <= MAX_SIDE,
            ;
        }
        let mut ordered: i64 = 0;
        let mut y: usize = 0;
        while y < l
            invariant
                self.wf(),
                s == self.spins@,
                l == self.l,
                y <= l,
                l * l <= MAX_SIDE * MAX_SIDE,
                ordered == sum(y as int, |yy: int| weighted_row(s, l as int, yy)),
                -4 * (y * l) <= ordered <= 4 * (y * l),
            decreases l - y,
        {
            let mut row: i64 = 0;
            let mut x: usize = 0;
            while x < l
                invariant
                    self.wf(),
                    s == self.spins@,
                    l == self.l,
                    x <= l,
                    y < l,
                    row == sum(x as int, |xx: int| weighted_term(s, l as int, y as int, xx)),
                    -4 * x <= row <= 4 * x,
                decreases l - x,
            {
                proof {
                    lemma_site_in_range(l as int, x as int, y as int);
                }
                let v = self.spins[y * l + x];
                let n: i64 = self.neighbour_sum_at(x, y) as i64;
                assert(v == 1 || v == -1);
                let t: i64 = if v == 1 {
                    n
                } else {
                    0 - n
                };
                proof {
                    let a = spin(s, l as int, x as int, y as int);
                    let b = neighbour_total(s, l as int, x as int, y as int);
                    assert(a == v as int);
                    if v == 1 {
                        assert(a * b == b) by (nonlinear_arith)
                            requires
                                a == 1,
                        ;
                    } else {
                        assert(a * b == -b) by (nonlinear_arith)
                            requires
                                a == -1,
                        ;
                    }
                }
                assert(t == weighted_term(s, l as int, y as int, x as int));
                row = row + t;
                x = x + 1;
            }
            proof {
                assert(y * l + l == (y + 1) * l) by (nonlinear_arith);
                assert((y + 1) * l <= l * l) by (nonlinear_arith)
                    requires
                        y < l,
                ;
            }
            ordered = ordered + row;
            y = y + 1;
        }
        proof {
            lemma_weighted_total_is_twice_bonds(s, l as int);
        }
        0 - ordered / 2
    }

    /// Sum of all spins (the magnetisation times L^2).
    pub fn spin_sum(&self) -> (m: i64)
        requires
            self.wf(),
        ensures
            m == spin_total(self.spins@),
    {
        let n = self.spins.len();
        let ghost s = self.spins@;
        proof {
            assert(self.l * self.l <= MAX_SIDE * MAX_SIDE) by (nonlinear_arith)
                requires
                    self.l <= MAX_SIDE,
            ;
        }
        let mut total: i64 = 0;
        let mut k: usize = 0;
        while k < n
            invariant
                self.wf(),
                s == self.spins@,
                n == s.len(),
                n <= MAX_SIDE * MAX_SIDE,
                k <= n,
                total == sum(k as int, |j: int| s[j] as int),
                -k <= total <= k,
            decreases n - k,
        {
            let v = self.spins[k];
            assert(v == 1 || v == -1);
            total = total + v as i64;
            k = k + 1;
        }
        total
    }
}

/// Flipping a spin changes the energy by exactly `delta_e` of that site,
/// on every lattice of side at least 2.
pub proof fn lemma_delta_e_is_energy_change(lat: Lattice, i: int)
    requires
        lat.wf(),
        lat.l >= 2,
        0 <= i < lat.spins@.len(),
    ensures
        energy_of(flipped(lat.spins@, i), lat.l as int) - energy_of(lat.spins@, lat.l as int) == 2
            * lat.spins@[i] * neighbour_total(lat.spins@, lat.l as int, lat.col(i), lat.row(i)),
{
    let l = lat.l as int;
    lemma_index_site(l, i);
    lemma_flip_energy_change(lat.spins@, l, lat.col(i), lat.row(i));
}

/// Flipping a spin twice restores the lattice.
pub proof fn lemma_flip_twice(s: Seq<i8>, i: int)
    requires
        valid_spins(s),
        0 <= i < s.len(),
    ensures
        valid_spins(flipped(s, i)),
        flipped(flipped(s, i), i) == s,
{
    assert(s[i] == 1 || s[i] == -1);
    assert(flipped(flipped(s, i), i) =~= s);
}

/// Flipping spin `i` changes the spin sum by `-2 s_i`.
pub proof fn lemma_flip_spin_total(s: Seq<i8>, i: int)
    requires
        valid_spins(s),
        0 <= i < s.len(),
    ensures
        spin_total(flipped(s, i)) == spin_total(s) - 2 * s[i],
{
    assert(s[i] == 1 || s[i] == -1);
    let t = flipped(s, i);
    crate::sums::lemma_sum_diff_one(s.len() as int, |k: int| t[k] as int, |k: int| s[k] as int, i);
}

/// The all-up lattice has energy -2 per site and spin sum L^2.
pub proof fn lemma_all_up_energy(s: Seq<i8>, l: int)
    requires
        0 <= l,
        s.len() == l * l,
        forall|k: int| 0 <= k < l * l ==> #[trigger] s[k] == 1,
    ensures
        energy_of(s, l) == -2 * (l * l),
        spin_total(s) == l * l,
{
    assert forall|x: int, y: int| 0 <= x < l && 0 <= y < l implies #[trigger] spin(s, l, x, y) == 1 by {
        lemma_site_in_range(l, x, y);
    }
    assert forall|y: int| 0 <= y < l implies #[trigger] right_bonds(s, l, y) == l by {
        assert forall|x: int| 0 <= x < l implies #[trigger] right_term(s, l, y, x) == 1 by {
            crate::sums::lemma_succ_pred_range(x, l);
        }
        crate::sums::lemma_sum_const(l, |x: int| right_term(s, l, y, x), 1);
    }
    assert forall|y: int| 0 <= y < l implies #[trigger] down_bonds(s, l, y) == l by {
        assert forall|x: int| 0 <= x < l implies #[trigger] down_term(s, l, y, x) == 1 by {
            crate::sums::lemma_succ_pred_range(y, l);
            assert(spin(s, l, x, succ(y, l)) == 1);
            assert(spin(s, l, x, y) == 1);
        }
        crate::sums::lemma_sum_const(l, |x: int| down_term(s, l, y, x), 1);
    }
    crate::sums::lemma_sum_const(l, |y: int| right_bonds(s, l, y), l);
    crate::sums::lemma_sum_const(l, |y: int| down_bonds(s, l, y), l);
    crate::sums::lemma_sum_const(l * l, |k: int| s[k] as int, 1);
}

} // verus!
