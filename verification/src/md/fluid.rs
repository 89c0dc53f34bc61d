//! Cell-list bookkeeping of the periodic-fluid force evaluation.
//!
//! The box is cut into an nx x ny grid of cells at least one cutoff wide,
//! numbered c = cy * nx + cx. Each particle is binned into the cell of its
//! wrapped position; candidate pairs are found by looking only at the 3x3
//! periodic neighbourhood of each particle's cell.

use vstd::prelude::*;

verus! {

/// Force evaluation method: the naive O(N^2) reference or the cell list.
/// A pure runtime/performance selection; never serialized to run.json.
#[derive(Clone, Copy, Debug, PartialEq, Eq, Structural)]
pub enum ForceMethod {
    Naive,
    Cells,
}

impl ForceMethod {
    /// The force method named `name` ("naive" or "cells").
    pub fn from_name(name: &str) -> (r: Option<ForceMethod>)
        ensures
            r == Some(ForceMethod::Naive) <==> name@ == "naive"@,
            r == Some(ForceMethod::Cells) <==> (name@ == "cells"@ && name@ != "naive"@),
            r is None <==> (name@ != "naive"@ && name@ != "cells"@),
    {
        if crate::text::text_eq(name, "naive") {
            Some(ForceMethod::Naive)
        } else if crate::text::text_eq(name, "cells") {
            Some(ForceMethod::Cells)
        } else {
            None
        }
    }
}

/// The nine wrapped 3x3 neighbourhood candidates of cell `c`, offsets
/// dy, dx in {-1, 0, 1} in that (row-major) order.
pub open spec fn neighbor_candidates(c: int, nx: int, ny: int) -> Seq<int> {
    let cx = c % nx;
    let cy = c / nx;
    Seq::new(9, |k: int| ((cy + (k / 3 - 1)) % ny) * nx + (cx + (k % 3 - 1)) % nx)
}

/// The first occurrences of the entries of `s`, in order.
pub open spec fn dedup(s: Seq<int>) -> Seq<int>
    decreases s.len(),
{
    if s.len() == 0 {
        Seq::empty()
    } else {
        let d = dedup(s.drop_last());
        if d.contains(s.last()) {
            d
        } else {
            d.push(s.last())
        }
    }
}

/// `dedup` keeps exactly the entries of `s`, each once.
pub proof fn lemma_dedup(s: Seq<int>)
    ensures
        dedup(s).no_duplicates(),
        forall|v: int| #[trigger] dedup(s).contains(v) <==> s.contains(v),
        dedup(s).len() <= s.len(),
    decreases s.len(),
{
    if s.len() > 0 {
        let t = s.drop_last();
        lemma_dedup(t);
        assert forall|v: int| #[trigger] s.contains(v) <==> (t.contains(v) || v == s.last()) by {
            if s.contains(v) {
                let k = choose|k: int| 0 <= k < s.len() && s[k] == v;
                if k < s.len() - 1 {
                    assert(t[k] == v);
                }
            }
            if t.contains(v) {
                let k = choose|k: int| 0 <= k < t.len() && t[k] == v;
                assert(s[k] == v);
            }
            if v == s.last() {
                assert(s[s.len() - 1] == v);
            }
        }
        let d = dedup(t);
        if !d.contains(s.last()) {
            let e = d.push(s.last());
            assert forall|v: int| #[trigger] e.contains(v) <==> (d.contains(v) || v == s.last()) by {
                if e.contains(v) {
                    let k = choose|k: int| 0 <= k < e.len() && e[k] == v;
                    if k < d.len() {
                        assert(d[k] == v);
                    }
                }
                if d.contains(v) {
                    let k = choose|k: int| 0 <= k < d.len() && d[k] == v;
                    assert(e[k] == v);
                }
                if v == s.last() {
                    assert(e[e.len() - 1] == v);
                }
            }
        }
    }
}

/// Wrapped offset `(a + d) mod n` for `d` in {-1, 0, 1}, computed without
/// leaving `0..n`.
fn wrap_offset(a: usize, d: usize, n: usize) -> (r: usize)
    requires
        a < n,
        d < 3,
    ensures
        r < n,
        r as int == (a + (d - 1)) % (n as int),
{
    if d == 0 {
        if a == 0 {
            proof {
                vstd::arithmetic::div_mod::lemma_mod_add_multiples_vanish(-1, n as int);
                vstd::arithmetic::div_mod::lemma_small_mod((n - 1) as nat, n as nat);
            }
            n - 1
        } else {
            proof {
                vstd::arithmetic::div_mod::lemma_small_mod((a - 1) as nat, n as nat);
            }
            a - 1
        }
    } else if d == 1 {
        proof {
            vstd::arithmetic::div_mod::lemma_small_mod(a as nat, n as nat);
        }
        a
    } else {
        if a + 1 == n {
            proof {
                vstd::arithmetic::div_mod::lemma_mod_self_0(n as int);
            }
            0
        } else {
            proof {
                vstd::arithmetic::div_mod::lemma_small_mod((a + 1) as nat, n as nat);
            }
            a + 1
        }
    }
}

/// Wrapped + deduplicated 3x3 neighbor cell indices of `c`: offsets dx, dy
/// in {-1, 0, 1} wrap periodically, and when several offsets land on the
/// same wrapped cell (e.g. a two-cell-wide box) the index is returned only
/// once, at its first occurrence.
pub fn neighbor_cells(c: usize, nx: usize, ny: usize) -> (r: Vec<usize>)
    requires
        0 < nx,
        0 < ny,
        nx * ny <= usize::MAX,
    ensures
        r@.map_values(|v: usize| v as int) == dedup(neighbor_candidates(c as int, nx as int, ny as int)),
        r@.no_duplicates(),
        r@.len() <= 9,
        forall|k: int| 0 <= k < r@.len() ==> #[trigger] r@[k] < nx * ny,
        forall|v: usize|
            #[trigger] r@.contains(v) <==> neighbor_candidates(c as int, nx as int, ny as int).contains(
                v as int,
            ),
{
    let cx = c % nx;
    let cy = c / nx;
    let cyw = cy % ny;
    let ghost cand = neighbor_candidates(c as int, nx as int, ny as int);
    proof {
        vstd::arithmetic::div_mod::lemma_add_mod_noop(cy as int, 0, ny as int);
    }
    let mut out: Vec<usize> = Vec::with_capacity(9);
    let mut k: usize = 0;
    while k < 9
        invariant
            0 < nx,
            0 < ny,
            nx * ny <= usize::MAX,
            cx == c % nx,
            cy == c / nx,
            cyw == cy % ny,
            cand == neighbor_candidates(c as int, nx as int, ny as int),
            k <= 9,
            out@.map_values(|v: usize| v as int) == dedup(cand.take(k as int)),
            forall|j: int| 0 <= j < out@.len() ==> #[trigger] out@[j] < nx * ny,
        decreases 9 - k,
    {
        let dy = k / 3;
        let dx = k % 3;
        let wcy = wrap_offset(cyw, dy, ny);
        let wcx = wrap_offset(cx, dx, nx);
        proof {
            // (cy + d) mod ny only depends on cy mod ny
            vstd::arithmetic::div_mod::lemma_add_mod_noop(cy as int, dy - 1, ny as int);
            vstd::arithmetic::div_mod::lemma_add_mod_noop(cyw as int, dy - 1, ny as int);
            vstd::arithmetic::div_mod::lemma_mod_twice(cy as int, ny as int);
            crate::grid::lemma_cell_in_range(nx as int, ny as int, wcx as int, wcy as int);
        }
        let idx = wcy * nx + wcx;
        assert(idx as int == cand[k as int]);
        let ghost before = out@;
        let mut present = false;
        let mut j: usize = 0;
        while j < out.len()
            invariant
                out@ == before,
                j <= out@.len(),
                present == exists|m: int| 0 <= m < j && out@[m] == idx,
            decreases out@.len() - j,
        {
            if out[j] == idx {
                present = true;
            }
            j = j + 1;
        }
        proof {
            let t = cand.take(k as int + 1);
            assert(t.drop_last() =~= cand.take(k as int));
            assert(t.last() == idx as int);
            let mv = out@.map_values(|v: usize| v as int);
            assert(mv.contains(idx as int) == present) by {
                if present {
                    let m = choose|m: int| 0 <= m < j && out@[m] == idx;
                    assert(mv[m] == idx as int);
                }
                if mv.contains(idx as int) {
                    let m = choose|m: int| 0 <= m < mv.len() && mv[m] == idx as int;
                    assert(out@[m] == idx);
                }
            }
        }
        if !present {
            out.push(idx);
            proof {
                let t = cand.take(k as int + 1);
                assert(out@.map_values(|v: usize| v as int) =~= before.map_values(|v: usize| v as int).push(
                    idx as int,
                ));
            }
        }
        k = k + 1;
    }
    proof {
        assert(cand.take(9) =~= cand);
        lemma_dedup(cand);
        let mv = out@.map_values(|v: usize| v as int);
        assert(out@.no_duplicates()) by {
            assert forall|a: int, b: int| 0 <= a < out@.len() && 0 <= b < out@.len() && a != b implies out@[a]
                != out@[b] by {
                assert(mv[a] != mv[b]);
            }
        }
        assert forall|v: usize| #[trigger] out@.contains(v) <==> cand.contains(v as int) by {
            if out@.contains(v) {
                let m = choose|m: int| 0 <= m < out@.len() && out@[m] == v;
                assert(mv[m] == v as int);
            }
            if mv.contains(v as int) {
                let m = choose|m: int| 0 <= m < mv.len() && mv[m] == v as int;
                assert(out@[m] == v);
            }
        }
    }
    out
}

/// The indices `i < m` with `cell_of[i] == c`, in increasing order.
pub open spec fn bin_of(cell_of: Seq<usize>, c: int, m: int) -> Seq<usize>
    decreases m,
{
    if m <= 0 {
        Seq::empty()
    } else {
        let b = bin_of(cell_of, c, m - 1);
        if cell_of[m - 1] as int == c {
            b.push((m - 1) as usize)
        } else {
            b
        }
    }
}

/// A bin holds exactly the particles of its cell, in strictly increasing order.
pub proof fn lemma_bin_of(cell_of: Seq<usize>, c: int, m: int)
    requires
        0 <= m <= cell_of.len(),
        m <= usize::MAX + 1,
    ensures
        forall|a: int, b: int|
            0 <= a < b < bin_of(cell_of, c, m).len() ==> #[trigger] bin_of(cell_of, c, m)[a]
                < #[trigger] bin_of(cell_of, c, m)[b],
        forall|a: int| 0 <= a < bin_of(cell_of, c, m).len() ==> #[trigger] bin_of(cell_of, c, m)[a] < m,
        forall|j: usize| #[trigger]
            bin_of(cell_of, c, m).contains(j) <==> (j < m && cell_of[j as int] as int == c),
    decreases m,
{
    if m > 0 {
        lemma_bin_of(cell_of, c, m - 1);
        let b = bin_of(cell_of, c, m - 1);
        if cell_of[m - 1] as int == c {
            let e = b.push((m - 1) as usize);
            assert forall|j: usize| #[trigger] e.contains(j) <==> (b.contains(j) || j == m - 1) by {
                if e.contains(j) {
                    let k = choose|k: int| 0 <= k < e.len() && e[k] == j;
                    if k < b.len() {
                        assert(b[k] == j);
                    }
                }
                if b.contains(j) {
                    let k = choose|k: int| 0 <= k < b.len() && b[k] == j;
                    assert(e[k] == j);
                }
                if j == m - 1 {
                    assert(e[e.len() - 1] == j);
                }
            }
        }
    }
}

/// Particle-index lists per cell: index `i` goes into the bin of cell
/// `cell_of[i]`, so every index appears in exactly one bin, bins list
/// their particles in increasing order, and empty cells stay empty.
pub fn bin_by_cell(cell_of: &Vec<usize>, n_cells: usize) -> (cells: Vec<Vec<usize>>)
    requires
        forall|i: int| 0 <= i < cell_of@.len() ==> #[trigger] cell_of@[i] < n_cells,
    ensures
        cells@.len() == n_cells,
        forall|c: int| 0 <= c < n_cells ==> #[trigger] cells@[c]@ == bin_of(cell_of@, c, cell_of@.len() as int),
        forall|c: int, j: usize|
            0 <= c < n_cells ==> (#[trigger] cells@[c]@.contains(j) <==> (j < cell_of@.len() && cell_of@[j as int]
                == c)),
        forall|c: int, a: int, b: int|
            0 <= c < n_cells && 0 <= a < b < cells@[c]@.len() ==> #[trigger] cells@[c]@[a]
                < #[trigger] cells@[c]@[b],
{
    let mut cells: Vec<Vec<usize>> = Vec::with_capacity(n_cells);
    let mut c: usize = 0;
    while c < n_cells
        invariant
            c <= n_cells,
            cells@.len() == c,
            forall|d: int| 0 <= d < c ==> #[trigger] cells@[d]@ == Seq::<usize>::empty(),
        decreases n_cells - c,
    {
        cells.push(Vec::new());
        c = c + 1;
    }
    let n = cell_of.len();
    let mut i: usize = 0;
    while i < n
        invariant
            n == cell_of@.len(),
            i <= n,
            cells@.len() == n_cells,
            forall|k: int| 0 <= k < cell_of@.len() ==> #[trigger] cell_of@[k] < n_cells,
            forall|d: int| 0 <= d < n_cells ==> #[trigger] cells@[d]@ == bin_of(cell_of@, d, i as int),
        decreases n - i,
    {
        let c = cell_of[i];
        let ghost before = cells@;
        cells[c].push(i);
        proof {
            assert forall|d: int| 0 <= d < n_cells implies #[trigger] cells@[d]@ == bin_of(
                cell_of@,
                d,
                i + 1,
            ) by {
                if d != c as int {
                    assert(cells@[d] == before[d]);
                }
            }
        }
        i = i + 1;
    }
    proof {
        assert forall|c: int, j: usize| 0 <= c < n_cells implies (#[trigger] cells@[c]@.contains(j) <==> (j < n
            && cell_of@[j as int] == c)) by {
            lemma_bin_of(cell_of@, c, n as int);
        }
        assert forall|c: int, a: int, b: int| 0 <= c < n_cells && 0 <= a < b < cells@[c]@.len() implies #[trigger] cells@[c]@[a]
            < #[trigger] cells@[c]@[b] by {
            lemma_bin_of(cell_of@, c, n as int);
        }
    }
    cells
}

/// Particle `j`'s cell lies in the wrapped 3x3 window around particle `i`'s.
pub open spec fn near(cell_of: Seq<usize>, nx: int, ny: int, i: int, j: int) -> bool {
    neighbor_candidates(cell_of[i] as int, nx, ny).contains(cell_of[j] as int)
}

/// The pairs `(i, j)` with `j` an entry of `bin` (among its first `u`)
/// larger than `i`, in bin order.
pub open spec fn bin_partners(bin: Seq<usize>, i: int, u: int) -> Seq<(usize, usize)>
    decreases u,
{
    if u <= 0 {
        Seq::empty()
    } else {
        let rest = bin_partners(bin, i, u - 1);
        if bin[u - 1] > i {
            rest.push((i as usize, bin[u - 1]))
        } else {
            rest
        }
    }
}

/// The partners of particle `i` in the bins of the first `t` cells of `nbs`,
/// cell after cell.
pub open spec fn row_pairs(cell_of: Seq<usize>, nbs: Seq<int>, i: int, t: int) -> Seq<(usize, usize)>
    decreases t,
{
    if t <= 0 {
        Seq::empty()
    } else {
        let bin = bin_of(cell_of, nbs[t - 1], cell_of.len() as int);
        row_pairs(cell_of, nbs, i, t - 1) + bin_partners(bin, i, bin.len() as int)
    }
}

/// The cell-list pair sequence of the first `m` particles: particle by
/// particle, its deduplicated neighbour cells in order, each cell's bin in
/// increasing index order, keeping the partners with a larger index.
pub open spec fn pair_order(cell_of: Seq<usize>, nx: int, ny: int, m: int) -> Seq<(usize, usize)>
    decreases m,
{
    if m <= 0 {
        Seq::empty()
    } else {
        let nbs = dedup(neighbor_candidates(cell_of[m - 1] as int, nx, ny));
        pair_order(cell_of, nx, ny, m - 1) + row_pairs(cell_of, nbs, m - 1, nbs.len() as int)
    }
}

/// The unordered particle pairs (i, j), i < j, whose cells are 3x3
/// periodic neighbours, each exactly once, grouped by `i` in increasing
/// order: for each particle, its deduplicated neighbour cells are visited in
/// order and their bins scanned for partners with a larger index.
pub fn cell_pairs(cell_of: &Vec<usize>, cells: &Vec<Vec<usize>>, nx: usize, ny: usize) -> (pairs: Vec<
    (usize, usize),
>)
    requires
        0 < nx,
        0 < ny,
        nx * ny <= usize::MAX,
        cells@.len() == nx * ny,
        forall|i: int| 0 <= i < cell_of@.len() ==> #[trigger] cell_of@[i] < nx * ny,
        forall|c: int|
            0 <= c < nx * ny ==> #[trigger] cells@[c]@ == bin_of(cell_of@, c, cell_of@.len() as int),
    ensures
        forall|k: int|
            0 <= k < pairs@.len() ==> {
                let p = #[trigger] pairs@[k];
                &&& p.0 < p.1 < cell_of@.len()
                &&& near(cell_of@, nx as int, ny as int, p.0 as int, p.1 as int)
            },
        forall|i: usize, j: usize|
            i < j < cell_of@.len() && near(cell_of@, nx as int, ny as int, i as int, j as int)
                ==> #[trigger] pairs@.contains((i, j)),
        pairs@.no_duplicates(),
        forall|a: int, b: int| 0 <= a < b < pairs@.len() ==> (#[trigger] pairs@[a]).0 <= (#[trigger] pairs@[b]).0,
        pairs@ == pair_order(cell_of@, nx as int, ny as int, cell_of@.len() as int),
{
    let n = cell_of.len();
    let ghost co = cell_of@;
    let mut pairs: Vec<(usize, usize)> = Vec::new();
    let mut i: usize = 0;
    while i < n
        invariant
            n == co.len(),
            co == cell_of@,
            0 < nx,
            0 < ny,
            nx * ny <= usize::MAX,
            cells@.len() == nx * ny,
            forall|q: int| 0 <= q < co.len() ==> #[trigger] co[q] < nx * ny,
            forall|c: int| 0 <= c < nx * ny ==> #[trigger] cells@[c]@ == bin_of(co, c, n as int),
            i <= n,
            forall|k: int|
                0 <= k < pairs@.len() ==> {
                    let p = #[trigger] pairs@[k];
                    &&& p.0 < i
                    &&& p.0 < p.1 < n
                    &&& near(co, nx as int, ny as int, p.0 as int, p.1 as int)
                },
            forall|a: usize, b: usize|
                a < i && a < b < n && near(co, nx as int, ny as int, a as int, b as int)
                    ==> #[trigger] pairs@.contains((a, b)),
            pairs@.no_duplicates(),
            forall|a: int, b: int|
                0 <= a < b < pairs@.len() ==> (#[trigger] pairs@[a]).0 <= (#[trigger] pairs@[b]).0,
            pairs@ == pair_order(co, nx as int, ny as int, i as int),
        decreases n - i,
    {
        let c = cell_of[i];
        let nbs = neighbor_cells(c, nx, ny);
        let mut t: usize = 0;
        while t < nbs.len()
            invariant
                n == co.len(),
                co == cell_of@,
                0 < nx,
                0 < ny,
                nx * ny <= usize::MAX,
                cells@.len() == nx * ny,
                forall|q: int| 0 <= q < co.len() ==> #[trigger] co[q] < nx * ny,
                forall|c: int| 0 <= c < nx * ny ==> #[trigger] cells@[c]@ == bin_of(co, c, n as int),
                i < n,
                c == co[i as int],
                nbs@.no_duplicates(),
                forall|k: int| 0 <= k < nbs@.len() ==> #[trigger] nbs@[k] < nx * ny,
                forall|v: usize|
                    #[trigger] nbs@.contains(v) <==> neighbor_candidates(
                        c as int,
                        nx as int,
                        ny as int,
                    ).contains(v as int),
                t <= nbs@.len(),
                forall|k: int|
                    0 <= k < pairs@.len() ==> {
                        let p = #[trigger] pairs@[k];
                        &&& p.0 <= i
                        &&& p.0 < p.1 < n
                        &&& near(co, nx as int, ny as int, p.0 as int, p.1 as int)
                        &&& p.0 == i ==> nbs@.take(t as int).contains(co[p.1 as int])
                    },
                forall|a: usize, b: usize|
                    a < i && a < b < n && near(co, nx as int, ny as int, a as int, b as int)
                        ==> #[trigger] pairs@.contains((a, b)),
                forall|b: usize|
                    i < b < n && nbs@.take(t as int).contains(co[b as int]) ==> #[trigger] pairs@.contains(
                        (i, b),
                    ),
                pairs@.no_duplicates(),
                forall|a: int, b: int|
                    0 <= a < b < pairs@.len() ==> (#[trigger] pairs@[a]).0 <= (#[trigger] pairs@[b]).0,
                nbs@.map_values(|v: usize| v as int) == dedup(neighbor_candidates(c as int, nx as int, ny as int)),
                pairs@ == pair_order(co, nx as int, ny as int, i as int) + row_pairs(
                    co,
                    dedup(neighbor_candidates(c as int, nx as int, ny as int)),
                    i as int,
                    t as int,
                ),
            decreases nbs@.len() - t,
        {
            let nb = nbs[t];
            let bin = &cells[nb];
            proof {
                lemma_bin_of(co, nb as int, n as int);
            }
            let mut u: usize = 0;
            while u < bin.len()
                invariant
                    n == co.len(),
                    co == cell_of@,
                    i < n,
                    c == co[i as int],
                    nbs@.no_duplicates(),
                    t < nbs@.len(),
                    nb == nbs@[t as int],
                    forall|v: usize|
                        #[trigger] nbs@.contains(v) <==> neighbor_candidates(
                            c as int,
                            nx as int,
                            ny as int,
                        ).contains(v as int),
                    bin@ == bin_of(co, nb as int, n as int),
                    forall|a: int, b: int| 0 <= a < b < bin@.len() ==> #[trigger] bin@[a] < #[trigger] bin@[b],
                    forall|a: int| 0 <= a < bin@.len() ==> #[trigger] bin@[a] < n,
                    forall|j: usize| #[trigger] bin@.contains(j) <==> (j < n && co[j as int] == nb),
                    u <= bin@.len(),
                    forall|k: int|
                        0 <= k < pairs@.len() ==> {
                            let p = #[trigger] pairs@[k];
                            &&& p.0 <= i
                            &&& p.0 < p.1 < n
                            &&& near(co, nx as int, ny as int, p.0 as int, p.1 as int)
                            &&& p.0 == i ==> (nbs@.take(t as int).contains(co[p.1 as int]) || exists|v: int|
                                0 <= v < u && bin@[v] == p.1)
                        },
                    forall|a: usize, b: usize|
                        a < i && a < b < n && near(co, nx as int, ny as int, a as int, b as int)
                            ==> #[trigger] pairs@.contains((a, b)),
                    forall|b: usize|
                        i < b < n && nbs@.take(t as int).contains(co[b as int]) ==> #[trigger] pairs@.contains(
                            (i, b),
                        ),
                    forall|v: int| 0 <= v < u && i < #[trigger] bin@[v] ==> pairs@.contains((i, bin@[v])),
                    pairs@.no_duplicates(),
                    forall|a: int, b: int|
                        0 <= a < b < pairs@.len() ==> (#[trigger] pairs@[a]).0 <= (#[trigger] pairs@[b]).0,
                    pairs@ == pair_order(co, nx as int, ny as int, i as int) + row_pairs(
                        co,
                        dedup(neighbor_candidates(c as int, nx as int, ny as int)),
                        i as int,
                        t as int,
                    ) + bin_partners(bin@, i as int, u as int),
                decreases bin@.len() - u,
            {
                let j = bin[u];
                if j > i {
                    let ghost before = pairs@;
                    proof {
                        assert(bin@.contains(j));
                        assert(nbs@.contains(nb));
                        // the new pair is not there yet
                        assert(!before.contains((i, j))) by {
                            if before.contains((i, j)) {
                                let k = choose|k: int| 0 <= k < before.len() && before[k] == (i, j);
                                let p = before[k];
                                if nbs@.take(t as int).contains(co[j as int]) {
                                    let m = choose|m: int| 0 <= m < t && #[trigger] nbs@.take(t as int)[m] == co[j as int];
                                    assert(nbs@[m] == nbs@[t as int]);
                                } else {
                                    let v = choose|v: int| 0 <= v < u && bin@[v] == p.1;
                                    assert(bin@[v] < bin@[u as int]);
                                }
                            }
                        }
                    }
                    pairs.push((i, j));
                    proof {
                        assert forall|k: int| 0 <= k < pairs@.len() implies {
                            let p = #[trigger] pairs@[k];
                            &&& p.0 <= i
                            &&& p.0 < p.1 < n
                            &&& near(co, nx as int, ny as int, p.0 as int, p.1 as int)
                            &&& p.0 == i ==> (nbs@.take(t as int).contains(co[p.1 as int]) || exists|v: int|
                                0 <= v < u + 1 && bin@[v] == p.1)
                        } by {
                            if k < before.len() {
                                assert(pairs@[k] == before[k]);
                            } else {
                                assert(bin@[u as int] == j);
                            }
                        }
                        assert forall|x: (usize, usize)| before.contains(x) implies #[trigger] pairs@.contains(x) by {
                            let k = choose|k: int| 0 <= k < before.len() && before[k] == x;
                            assert(pairs@[k] == x);
                        }
                        assert(pairs@[pairs@.len() - 1] == (i, j));
                        assert(pairs@.no_duplicates()) by {
                            assert forall|a: int, b: int| 0 <= a < pairs@.len() && 0 <= b < pairs@.len() && a != b implies pairs@[a]
                                != pairs@[b] by {
                                if a < before.len() && b < before.len() {
                                    assert(before[a] != before[b]);
                                } else if a < before.len() {
                                    assert(before.contains(before[a]));
                                } else {
                                    assert(before.contains(before[b]));
                                }
                            }
                        }
                    }
                }
                u = u + 1;
            }
            proof {
                assert forall|b: usize| i < b < n && nbs@.take(t as int + 1).contains(co[b as int]) implies #[trigger] pairs@.contains(
                    (i, b),
                ) by {
                    let m = choose|m: int| 0 <= m < t + 1 && #[trigger] nbs@.take(t as int + 1)[m] == co[b as int];
                    if m < t {
                        assert(nbs@.take(t as int)[m] == co[b as int]);
                    } else {
                        assert(bin@.contains(b));
                        let v = choose|v: int| 0 <= v < bin@.len() && bin@[v] == b;
                    }
                }
                assert forall|k: int| 0 <= k < pairs@.len() implies ({
                    let p = #[trigger] pairs@[k];
                    p.0 == i ==> nbs@.take(t as int + 1).contains(co[p.1 as int])
                }) by {
                    let p = pairs@[k];
                    if p.0 == i {
                        if nbs@.take(t as int).contains(co[p.1 as int]) {
                            let m = choose|m: int| 0 <= m < t && #[trigger] nbs@.take(t as int)[m] == co[p.1 as int];
                            assert(nbs@.take(t as int + 1)[m] == co[p.1 as int]);
                        } else {
                            let v = choose|v: int| 0 <= v < bin@.len() && bin@[v] == p.1;
                            assert(bin@.contains(p.1));
                            assert(nbs@.take(t as int + 1)[t as int] == nb);
                        }
                    }
                }
            }
            t = t + 1;
        }
        proof {
            assert(nbs@.take(nbs@.len() as int) =~= nbs@);
            assert forall|a: usize, b: usize| a < i + 1 && a < b < n && near(co, nx as int, ny as int, a as int, b as int)
                implies #[trigger] pairs@.contains((a, b)) by {
                if a == i {
                    assert(nbs@.contains(co[b as int]));
                }
            }
        }
        i = i + 1;
    }
    pairs
}

/// Undoing a wrapped offset: `((a + d) mod n - d) mod n == a` for `a` in `0..n`.
proof fn lemma_unwrap_offset(a: int, d: int, n: int)
    requires
        0 <= a < n,
    ensures
        (((a + d) % n) - d) % n == a,
{
    let q = (a + d) / n;
    vstd::arithmetic::div_mod::lemma_fundamental_div_mod(a + d, n);
    vstd::arithmetic::mul::lemma_mul_is_commutative(n, q);
    assert(((a + d) % n) - d == (-q) * n + a) by (nonlinear_arith)
        requires
            a + d == q * n + (a + d) % n,
    ;
    vstd::arithmetic::div_mod::lemma_fundamental_div_mod_converse(((a + d) % n) - d, n, -q, a);
}

/// The wrapped 3x3 neighbourhood relation between the cells of a grid is
/// symmetric, so `near` describes unordered particle pairs.
pub proof fn lemma_neighbor_candidates_symmetric(a: int, b: int, nx: int, ny: int)
    requires
        0 < nx,
        0 < ny,
        0 <= a < nx * ny,
        0 <= b < nx * ny,
        neighbor_candidates(a, nx, ny).contains(b),
    ensures
        neighbor_candidates(b, nx, ny).contains(a),
{
    let ca = neighbor_candidates(a, nx, ny);
    let k = choose|k: int| 0 <= k < ca.len() && ca[k] == b;
    let dy = k / 3 - 1;
    let dx = k % 3 - 1;
    crate::grid::lemma_index_cell(nx, ny, a);
    let ax = a % nx;
    let ay = a / nx;
    let bx = (ax + dx) % nx;
    let by = (ay + dy) % ny;
    assert(0 <= bx < nx && 0 <= by < ny);
    assert(b == by * nx + bx);
    crate::grid::lemma_cell_coords(nx, bx, by);
    lemma_unwrap_offset(ax, dx, nx);
    lemma_unwrap_offset(ay, dy, ny);
    let k2 = 3 * (1 - dy) + (1 - dx);
    let cb = neighbor_candidates(b, nx, ny);
    assert(k2 / 3 - 1 == -dy && k2 % 3 - 1 == -dx);
    assert(cb[k2] == ((by + (-dy)) % ny) * nx + (bx + (-dx)) % nx);
    assert(cb[k2] == a);
}

/// Particle `i` is near `j` exactly when `j` is near `i`.
pub proof fn lemma_near_symmetric(cell_of: Seq<usize>, nx: int, ny: int, i: int, j: int)
    requires
        0 < nx,
        0 < ny,
        0 <= i < cell_of.len(),
        0 <= j < cell_of.len(),
        cell_of[i] < nx * ny,
        cell_of[j] < nx * ny,
    ensures
        near(cell_of, nx, ny, i, j) <==> near(cell_of, nx, ny, j, i),
{
    if near(cell_of, nx, ny, i, j) {
        lemma_neighbor_candidates_symmetric(cell_of[i] as int, cell_of[j] as int, nx, ny);
    }
    if near(cell_of, nx, ny, j, i) {
        lemma_neighbor_candidates_symmetric(cell_of[j] as int, cell_of[i] as int, nx, ny);
    }
}

} // verus!
