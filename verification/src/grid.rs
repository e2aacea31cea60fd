//! The grid of cells and the constraint-propagation pass.
//!
//! Cells are stored row-major: the cell at column `x`, row `y` of a
//! `width x height` grid sits at index `y * width + x`.  Directions use the
//! same codes as sides: 0 = up, 1 = left, 2 = down, 3 = right.

use vstd::prelude::*;
use crate::tile::{Tile, catalog_analyzed, compatible, edge_seq, opposite};

verus! {

/// One grid cell: whether it has been collapsed, its row-major index, and
/// the catalog indices still open to it.
#[derive(Debug)]
pub struct GridCell {
    pub collapsed: bool,
    pub id: usize,
    pub options: Vec<usize>,
}

/// The sequence `0, 1, ..., n-1` of catalog indices.
pub open spec fn range_seq(n: int) -> Seq<usize> {
    Seq::new(n as nat, |i: int| i as usize)
}

impl GridCell {
    /// A fresh cell: uncollapsed, with every catalog index still open.
    pub fn new(id: usize, max_options: usize) -> (r: Self)
        ensures
            !r.collapsed,
            r.id == id,
            r.options@ == range_seq(max_options as int),
    {
        let mut options: Vec<usize> = Vec::new();
        let mut i: usize = 0;
        while i < max_options
            invariant
                i <= max_options,
                options@.len() == i,
                forall|k: int| 0 <= k < i ==> #[trigger] options@[k] == k,
            decreases max_options - i,
        {
            options.push(i);
            i += 1;
        }
        proof {
            assert(options@ =~= range_seq(max_options as int));
        }
        GridCell { collapsed: false, id, options }
    }
}

/// A cell whose option values all index into a catalog of `n_tiles` tiles,
/// and which, once collapsed, holds exactly one option.
pub open spec fn cell_wf(c: GridCell, n_tiles: int) -> bool {
    (forall|k: int| 0 <= k < c.options@.len() ==> #[trigger] c.options@[k] < n_tiles) && (
    c.collapsed ==> c.options@.len() == 1)
}

/// Every cell of the grid is well formed for the catalog size.
pub open spec fn grid_wf(grid: Seq<GridCell>, n_tiles: int) -> bool {
    forall|i: int| 0 <= i < grid.len() ==> cell_wf(#[trigger] grid[i], n_tiles)
}

/// Whether the cell at `idx` has a neighbor in direction `d`.
pub open spec fn has_nbr(w: int, h: int, idx: int, d: int) -> bool
    recommends
        w >= 1,
        0 <= idx < w * h,
        0 <= d < 4,
{
    if d == 0 {
        idx / w > 0
    } else if d == 1 {
        idx % w > 0
    } else if d == 2 {
        idx / w < h - 1
    } else {
        idx % w < w - 1
    }
}

/// The row-major index of the neighbor in direction `d`.
pub open spec fn nbr_index(w: int, idx: int, d: int) -> int {
    if d == 0 {
        idx - w
    } else if d == 1 {
        idx - 1
    } else if d == 2 {
        idx + w
    } else {
        idx + 1
    }
}

/// Whether a neighbor with option set `nbr_opts`, lying in direction `d`
/// from a cell, allows tile `t` in that cell: some option of the neighbor
/// lists `t` on the side facing back.
pub open spec fn nbr_allows(nbr_opts: Seq<usize>, tiles: Seq<Tile>, d: int, t: usize) -> bool {
    exists|k: int|
        0 <= k < nbr_opts.len() && edge_seq(
            tiles[#[trigger] nbr_opts[k] as int].edges,
            opposite(d),
        ).contains(t)
}

/// Whether tile `t` is allowed in the cell at `idx` by every in-bounds
/// neighbor, given the option sets `opts` of all cells.
pub open spec fn allowed(
    opts: Seq<Seq<usize>>,
    tiles: Seq<Tile>,
    w: int,
    h: int,
    idx: int,
    t: usize,
) -> bool {
    forall|d: int|
        0 <= d < 4 && has_nbr(w, h, idx, d) ==> #[trigger] nbr_allows(
            opts[nbr_index(w, idx, d)],
            tiles,
            d,
            t,
        )
}

/// The catalog indices below `n` allowed in the cell at `idx`, in
/// increasing order.
pub open spec fn filtered_upto(
    opts: Seq<Seq<usize>>,
    tiles: Seq<Tile>,
    w: int,
    h: int,
    idx: int,
    n: int,
) -> Seq<usize>
    decreases n,
{
    if n <= 0 {
        Seq::empty()
    } else if allowed(opts, tiles, w, h, idx, (n - 1) as usize) {
        filtered_upto(opts, tiles, w, h, idx, n - 1).push((n - 1) as usize)
    } else {
        filtered_upto(opts, tiles, w, h, idx, n - 1)
    }
}

/// The full recomputed option set for the cell at `idx`.
pub open spec fn cell_options(
    opts: Seq<Seq<usize>>,
    tiles: Seq<Tile>,
    w: int,
    h: int,
    idx: int,
) -> Seq<usize> {
    filtered_upto(opts, tiles, w, h, idx, tiles.len() as int)
}

/// The option sets of a grid, cell by cell.
pub open spec fn opts_view(grid: Seq<GridCell>) -> Seq<Seq<usize>> {
    grid.map_values(|c: GridCell| c.options@)
}

/// The collapse flags of a grid, cell by cell.
pub open spec fn flags_view(grid: Seq<GridCell>) -> Seq<bool> {
    grid.map_values(|c: GridCell| c.collapsed)
}

/// The in-place propagation sweep over the first `n` cells: each
/// uncollapsed cell in turn has its option set recomputed from the current
/// option sets of its neighbors — cells earlier in the sweep already updated,
/// later ones not yet.
pub open spec fn sweep(
    opts: Seq<Seq<usize>>,
    coll: Seq<bool>,
    tiles: Seq<Tile>,
    w: int,
    h: int,
    n: int,
) -> Seq<Seq<usize>>
    decreases n,
{
    if n <= 0 {
        opts
    } else {
        let prev = sweep(opts, coll, tiles, w, h, n - 1);
        if coll[n - 1] {
            prev
        } else {
            prev.update(n - 1, cell_options(prev, tiles, w, h, n - 1))
        }
    }
}

/// Every option of the cell at `idx` fits every collapsed in-bounds
/// neighbor: the option's tile may sit, under the matching rule, on the side
/// of the neighbor's fixed tile that faces this cell.
pub open spec fn respects_collapsed_nbrs(
    grid: Seq<GridCell>,
    tiles: Seq<Tile>,
    w: int,
    h: int,
    idx: int,
) -> bool {
    forall|k: int, d: int|
        #![trigger grid[idx].options@[k], has_nbr(w, h, idx, d)]
        0 <= k < grid[idx].options@.len() && 0 <= d < 4 && has_nbr(w, h, idx, d) && grid[nbr_index(
            w,
            idx,
            d,
        )].collapsed ==> compatible(
            tiles[grid[nbr_index(w, idx, d)].options@[0] as int].connections@,
            tiles[grid[idx].options@[k] as int].connections@,
            opposite(d),
        )
}

/// A fresh grid: `width * height` uncollapsed cells, numbered row-major,
/// each with the full catalog open.
pub fn init_grid(width: usize, height: usize, catalog_size: usize) -> (r: Vec<GridCell>)
    requires
        width * height <= usize::MAX,
    ensures
        r@.len() == width * height,
        forall|i: int|
            0 <= i < r@.len() ==> !(#[trigger] r@[i]).collapsed && r@[i].id == i
                && r@[i].options@ == range_seq(catalog_size as int),
{
    let total = width * height;
    let mut grid: Vec<GridCell> = Vec::new();
    let mut i: usize = 0;
    while i < total
        invariant
            i <= total,
            grid@.len() == i,
            forall|p: int|
                0 <= p < i ==> !(#[trigger] grid@[p]).collapsed && grid@[p].id == p
                    && grid@[p].options@ == range_seq(catalog_size as int),
        decreases total - i,
    {
        grid.push(GridCell::new(i, catalog_size));
        i += 1;
    }
    grid
}

/// Position arithmetic for a row-major grid: the bounds that the row and
/// column of an in-range index obey, and the ranges of its neighbor indices.
proof fn lemma_grid_pos(w: int, h: int, idx: int)
    requires
        w >= 1,
        h >= 1,
        0 <= idx < w * h,
    ensures
        0 <= idx % w < w,
        0 <= idx / w < h,
        idx == w * (idx / w) + idx % w,
        idx / w > 0 ==> w <= idx,
        idx % w > 0 ==> 1 <= idx,
        idx / w < h - 1 ==> idx + w < w * h,
        idx % w < w - 1 ==> idx + 1 < w * h,
{
    vstd::arithmetic::div_mod::lemma_fundamental_div_mod(idx, w);
    vstd::arithmetic::div_mod::lemma_mod_bound(idx, w);
    let x = idx % w;
    let y = idx / w;
    assert(idx == w * y + x);
    assert(0 <= x < w);
    assert(0 <= y < h) by (nonlinear_arith)
        requires
            w >= 1,
            h >= 1,
            0 <= idx < w * h,
            idx == w * y + x,
            0 <= x < w,
    ;
    assert(y > 0 ==> w <= idx) by (nonlinear_arith)
        requires
            idx == w * y + x,
            0 <= x,
            w >= 1,
            0 <= y,
    ;
    assert(x > 0 ==> 1 <= idx) by (nonlinear_arith)
        requires
            idx == w * y + x,
            w >= 1,
            0 <= y,
    ;
    assert(y < h - 1 ==> idx + w < w * h) by (nonlinear_arith)
        requires
            idx == w * y + x,
            0 <= x < w,
            w >= 1,
    ;
    assert(x < w - 1 ==> idx + 1 < w * h) by (nonlinear_arith)
        requires
            idx == w * y + x,
            0 <= x < w,
            w >= 1,
            y < h,
    ;
}

/// Neighborhood is mutual: the neighbor in direction `d` is in range, and
/// the cell is that neighbor's own neighbor in the opposite direction.
pub proof fn lemma_nbr_dual(w: int, h: int, idx: int, d: int)
    requires
        w >= 1,
        h >= 1,
        0 <= idx < w * h,
        0 <= d < 4,
        has_nbr(w, h, idx, d),
    ensures
        0 <= nbr_index(w, idx, d) < w * h,
        has_nbr(w, h, nbr_index(w, idx, d), opposite(d)),
        nbr_index(w, nbr_index(w, idx, d), opposite(d)) == idx,
{
    lemma_grid_pos(w, h, idx);
    let x = idx % w;
    let y = idx / w;
    let nb = nbr_index(w, idx, d);
    if d == 0 {
        assert(nb == (y - 1) * w + x) by (nonlinear_arith)
            requires
                idx == w * y + x,
                nb == idx - w,
        ;
        vstd::arithmetic::div_mod::lemma_fundamental_div_mod_converse(nb, w, y - 1, x);
        assert(opposite(0) == 2);
    } else if d == 1 {
        assert(nb == y * w + (x - 1)) by (nonlinear_arith)
            requires
                idx == w * y + x,
                nb == idx - 1,
        ;
        vstd::arithmetic::div_mod::lemma_fundamental_div_mod_converse(nb, w, y, x - 1);
        assert(opposite(1) == 3);
    } else if d == 2 {
        assert(nb == (y + 1) * w + x) by (nonlinear_arith)
            requires
                idx == w * y + x,
                nb == idx + w,
        ;
        vstd::arithmetic::div_mod::lemma_fundamental_div_mod_converse(nb, w, y + 1, x);
        assert(opposite(2) == 0);
    } else {
        assert(nb == y * w + (x + 1)) by (nonlinear_arith)
            requires
                idx == w * y + x,
                nb == idx + 1,
        ;
        vstd::arithmetic::div_mod::lemma_fundamental_div_mod_converse(nb, w, y, x + 1);
        assert(opposite(3) == 1);
    }
}

/// Membership in a recomputed option set is exactly the neighbor filter: a
/// tile index is kept when it is in range and every in-bounds neighbor
/// allows it.
pub proof fn lemma_filtered_upto_membership(
    opts: Seq<Seq<usize>>,
    tiles: Seq<Tile>,
    w: int,
    h: int,
    idx: int,
    n: int,
    t: usize,
)
    requires
        0 <= n <= usize::MAX,
    ensures
        filtered_upto(opts, tiles, w, h, idx, n).contains(t) <==> (t < n && allowed(
            opts,
            tiles,
            w,
            h,
            idx,
            t,
        )),
    decreases n,
{
    if n > 0 {
        lemma_filtered_upto_membership(opts, tiles, w, h, idx, n - 1, t);
        if allowed(opts, tiles, w, h, idx, (n - 1) as usize) {
            let prev = filtered_upto(opts, tiles, w, h, idx, n - 1);
            assert(filtered_upto(opts, tiles, w, h, idx, n) == prev.push((n - 1) as usize));
            vstd::seq_lib::lemma_seq_contains_after_push(prev, (n - 1) as usize, t);
        }
    }
}

/// Whether `v` holds the value `t`.
fn contains_index(v: &Vec<usize>, t: usize) -> (r: bool)
    ensures
        r == v@.contains(t),
{
    let mut i: usize = 0;
    while i < v.len()
        invariant
            i <= v@.len(),
            forall|k: int| 0 <= k < i ==> v@[k] != t,
        decreases v@.len() - i,
    {
        if v[i] == t {
            return true;
        }
        i += 1;
    }
    false
}

/// Whether the neighbor cell `nbr`, in direction `d` from the cell under
/// recomputation, allows tile `t` there.
fn nbr_allows_exec(nbr: &GridCell, tiles: &Vec<Tile>, d: usize, t: usize) -> (r: bool)
    requires
        d < 4,
        cell_wf(*nbr, tiles@.len() as int),
    ensures
        r == nbr_allows(nbr.options@, tiles@, d as int, t),
{
    let side = (d + 2) % 4;
    let mut k: usize = 0;
    while k < nbr.options.len()
        invariant
            k <= nbr.options@.len(),
            d < 4,
            side == opposite(d as int),
            cell_wf(*nbr, tiles@.len() as int),
            forall|j: int|
                0 <= j < k ==> !edge_seq(
                    tiles@[#[trigger] nbr.options@[j] as int].edges,
                    opposite(d as int),
                ).contains(t),
        decreases nbr.options@.len() - k,
    {
        let o = nbr.options[k];
        let list = match tiles[o].edges.get_from_index(side) {
            Some(list) => list,
            None => {
                proof {
                    assert(false);
                }
                return false;
            },
        };
        if contains_index(list, t) {
            return true;
        }
        k += 1;
    }
    false
}

/// Whether every in-bounds neighbor of the cell at `idx` allows tile `t`.
fn cell_allowed(
    grid: &Vec<GridCell>,
    tiles: &Vec<Tile>,
    width: usize,
    height: usize,
    idx: usize,
    t: usize,
) -> (r: bool)
    requires
        width >= 1,
        height >= 1,
        grid@.len() == width * height,
        idx < grid@.len(),
        grid_wf(grid@, tiles@.len() as int),
    ensures
        r == allowed(opts_view(grid@), tiles@, width as int, height as int, idx as int, t),
{
    proof {
        lemma_grid_pos(width as int, height as int, idx as int);
    }
    let total = grid.len();
    let ghost wi = width as int;
    let ghost hi = height as int;
    let x = idx % width;
    let y = idx / width;
    if y > 0 {
        if !nbr_allows_exec(&grid[idx - width], tiles, 0, t) {
            proof {
                assert(has_nbr(wi, hi, idx as int, 0));
                assert(!nbr_allows(opts_view(grid@)[nbr_index(wi, idx as int, 0)], tiles@, 0, t));
            }
            return false;
        }
    }
    if x > 0 {
        if !nbr_allows_exec(&grid[idx - 1], tiles, 1, t) {
            proof {
                assert(has_nbr(wi, hi, idx as int, 1));
                assert(!nbr_allows(opts_view(grid@)[nbr_index(wi, idx as int, 1)], tiles@, 1, t));
            }
            return false;
        }
    }
    if y + 1 < height {
        if !nbr_allows_exec(&grid[idx + width], tiles, 2, t) {
            proof {
                assert(has_nbr(wi, hi, idx as int, 2));
                assert(!nbr_allows(opts_view(grid@)[nbr_index(wi, idx as int, 2)], tiles@, 2, t));
            }
            return false;
        }
    }
    if x + 1 < width {
        if !nbr_allows_exec(&grid[idx + 1], tiles, 3, t) {
            proof {
                assert(has_nbr(wi, hi, idx as int, 3));
                assert(!nbr_allows(opts_view(grid@)[nbr_index(wi, idx as int, 3)], tiles@, 3, t));
            }
            return false;
        }
    }
    proof {
        let wi = width as int;
        let hi = height as int;
        assert forall|d: int| 0 <= d < 4 && has_nbr(wi, hi, idx as int, d) implies #[trigger]
        nbr_allows(opts_view(grid@)[nbr_index(wi, idx as int, d)], tiles@, d, t) by {
            if d == 0 {
                assert(nbr_allows(grid@[idx - width].options@, tiles@, 0, t));
            } else if d == 1 {
                assert(nbr_allows(grid@[idx - 1].options@, tiles@, 1, t));
            } else if d == 2 {
                assert(nbr_allows(grid@[idx + width].options@, tiles@, 2, t));
            } else {
                assert(nbr_allows(grid@[idx + 1].options@, tiles@, 3, t));
            }
        }
    }
    true
}

/// Replacing one cell changes the option and flag views pointwise.
proof fn lemma_views_update(g: Seq<GridCell>, i: int, c: GridCell)
    requires
        0 <= i < g.len(),
    ensures
        opts_view(g.update(i, c)) =~= opts_view(g).update(i, c.options@),
        flags_view(g.update(i, c)) =~= flags_view(g).update(i, c.collapsed),
{
}

/// Rewriting the option set of one uncollapsed cell cannot break another
/// cell's fit with its collapsed neighbors.
proof fn lemma_respects_preserved(
    g1: Seq<GridCell>,
    g2: Seq<GridCell>,
    tiles: Seq<Tile>,
    w: int,
    h: int,
    i: int,
    j: int,
)
    requires
        w >= 1,
        h >= 1,
        g1.len() == w * h,
        g1.len() == g2.len(),
        0 <= i < g1.len(),
        0 <= j < g1.len(),
        i != j,
        forall|p: int| 0 <= p < g1.len() && p != j ==> #[trigger] g2[p] == g1[p],
        g2[j].collapsed == g1[j].collapsed,
        !g1[j].collapsed,
        respects_collapsed_nbrs(g1, tiles, w, h, i),
    ensures
        respects_collapsed_nbrs(g2, tiles, w, h, i),
{
    assert forall|k: int, d: int|
        #![trigger g2[i].options@[k], has_nbr(w, h, i, d)]
        0 <= k < g2[i].options@.len() && 0 <= d < 4 && has_nbr(w, h, i, d) && g2[nbr_index(
            w,
            i,
            d,
        )].collapsed implies compatible(
        tiles[g2[nbr_index(w, i, d)].options@[0] as int].connections@,
        tiles[g2[i].options@[k] as int].connections@,
        opposite(d),
    ) by {
        assert(g2[i] == g1[i]);
        lemma_grid_pos(w, h, i);
        let nb = nbr_index(w, i, d);
        assert(0 <= nb < g1.len());
        if nb != j {
            assert(g2[nb] == g1[nb]);
            assert(g1[nb].collapsed);
            assert(0 <= k < g1[i].options@.len());
            assert(compatible(
                tiles[g1[nb].options@[0] as int].connections@,
                tiles[g1[i].options@[k] as int].connections@,
                opposite(d),
            ));
        }
    }
}

/// One constraint-propagation pass.  Every uncollapsed cell, in row-major
/// order, has its option set recomputed from the current option sets of its
/// in-bounds neighbors: a tile index survives exactly when, for each such
/// neighbor, some option of the neighbor lists it on the facing side.  Cells
/// already updated earlier in the same pass are read in their updated state;
/// collapsed cells are left untouched.  Afterwards no uncollapsed cell keeps
/// an option that violates a collapsed neighbor's fixed tile.
pub fn update_grid(grid: &mut Vec<GridCell>, tiles: &Vec<Tile>, width: usize, height: usize)
    requires
        width >= 1,
        height >= 1,
        old(grid)@.len() == width * height,
        grid_wf(old(grid)@, tiles@.len() as int),
        catalog_analyzed(tiles@),
    ensures
        final(grid)@.len() == old(grid)@.len(),
        forall|i: int|
            0 <= i < old(grid)@.len() ==> (#[trigger] final(grid)@[i]).collapsed
                == old(grid)@[i].collapsed && final(grid)@[i].id == old(grid)@[i].id,
        forall|i: int|
            0 <= i < old(grid)@.len() && old(grid)@[i].collapsed
                ==> (#[trigger] final(grid)@[i]).options@ == old(grid)@[i].options@,
        opts_view(final(grid)@) == sweep(
            opts_view(old(grid)@),
            flags_view(old(grid)@),
            tiles@,
            width as int,
            height as int,
            old(grid)@.len() as int,
        ),
        grid_wf(final(grid)@, tiles@.len() as int),
        forall|i: int|
            0 <= i < final(grid)@.len() && !(#[trigger] final(grid)@[i]).collapsed
                ==> respects_collapsed_nbrs(
                final(grid)@,
                tiles@,
                width as int,
                height as int,
                i,
            ),
{
    let ghost g0 = grid@;
    let ghost ov0 = opts_view(grid@);
    let ghost fl0 = flags_view(grid@);
    let ghost wi = width as int;
    let ghost hi = height as int;
    let ghost nt = tiles@.len() as int;
    let n_tiles = tiles.len();
    let total = grid.len();
    let mut idx: usize = 0;
    while idx < total
        invariant
            idx <= total,
            total == g0.len(),
            g0.len() == wi * hi,
            wi == width as int,
            hi == height as int,
            width >= 1,
            height >= 1,
            nt == tiles@.len() as int,
            nt <= usize::MAX,
            n_tiles == tiles@.len(),
            catalog_analyzed(tiles@),
            ov0 == opts_view(g0),
            fl0 == flags_view(g0),
            grid@.len() == g0.len(),
            grid_wf(grid@, nt),
            forall|i: int|
                0 <= i < g0.len() ==> (#[trigger] grid@[i]).collapsed == g0[i].collapsed
                    && grid@[i].id == g0[i].id,
            forall|i: int|
                0 <= i < g0.len() && g0[i].collapsed ==> (#[trigger] grid@[i]).options@
                    == g0[i].options@,
            forall|i: int|
                idx <= i < g0.len() ==> (#[trigger] grid@[i]).options@ == g0[i].options@,
            opts_view(grid@) == sweep(ov0, fl0, tiles@, wi, hi, idx as int),
            forall|i: int|
                0 <= i < idx && !(#[trigger] grid@[i]).collapsed ==> respects_collapsed_nbrs(
                    grid@,
                    tiles@,
                    wi,
                    hi,
                    i,
                ),
        decreases total - idx,
    {
        if grid[idx].collapsed {
            proof {
                assert(fl0[idx as int] == g0[idx as int].collapsed);
                assert(sweep(ov0, fl0, tiles@, wi, hi, idx as int + 1) == sweep(
                    ov0,
                    fl0,
                    tiles@,
                    wi,
                    hi,
                    idx as int,
                ));
            }
        } else {
            let ghost gcur = grid@;
            let mut new_opts: Vec<usize> = Vec::new();
            let mut t: usize = 0;
            while t < n_tiles
                invariant
                    t <= n_tiles,
                    n_tiles == tiles@.len(),
                    width >= 1,
                    height >= 1,
                    wi == width as int,
                    hi == height as int,
                    grid@ == gcur,
                    gcur.len() == wi * hi,
                    idx < gcur.len(),
                    grid_wf(gcur, tiles@.len() as int),
                    new_opts@ == filtered_upto(
                        opts_view(gcur),
                        tiles@,
                        wi,
                        hi,
                        idx as int,
                        t as int,
                    ),
                decreases n_tiles - t,
            {
                if cell_allowed(grid, tiles, width, height, idx, t) {
                    new_opts.push(t);
                }
                t += 1;
            }
            proof {
                assert(new_opts@ == cell_options(opts_view(gcur), tiles@, wi, hi, idx as int));
                assert forall|k: int| 0 <= k < new_opts@.len() implies #[trigger] new_opts@[k]
                    < nt by {
                    assert(new_opts@.contains(new_opts@[k]));
                    lemma_filtered_upto_membership(
                        opts_view(gcur),
                        tiles@,
                        wi,
                        hi,
                        idx as int,
                        nt,
                        new_opts@[k],
                    );
                }
            }
            let id = grid[idx].id;
            grid[idx] = GridCell { collapsed: false, id, options: new_opts };
            proof {
                let gnew = grid@;
                let cell = gnew[idx as int];
                assert(gnew == gcur.update(idx as int, cell));
                lemma_views_update(gcur, idx as int, cell);
                assert(opts_view(gnew) == opts_view(gcur).update(idx as int, new_opts@));
                assert(fl0[idx as int] == g0[idx as int].collapsed);
                assert(!g0[idx as int].collapsed);
                assert(sweep(ov0, fl0, tiles@, wi, hi, idx as int + 1) == sweep(
                    ov0,
                    fl0,
                    tiles@,
                    wi,
                    hi,
                    idx as int,
                ).update(
                    idx as int,
                    cell_options(sweep(ov0, fl0, tiles@, wi, hi, idx as int), tiles@, wi, hi, idx as int),
                ));
                // the freshly written cell fits its collapsed neighbors
                lemma_grid_pos(wi, hi, idx as int);
                assert forall|k: int, d: int|
                    #![trigger gnew[idx as int].options@[k], has_nbr(wi, hi, idx as int, d)]
                    0 <= k < gnew[idx as int].options@.len() && 0 <= d < 4 && has_nbr(
                        wi,
                        hi,
                        idx as int,
                        d,
                    ) && gnew[nbr_index(wi, idx as int, d)].collapsed implies compatible(
                    tiles@[gnew[nbr_index(wi, idx as int, d)].options@[0] as int].connections@,
                    tiles@[gnew[idx as int].options@[k] as int].connections@,
                    opposite(d),
                ) by {
                    let t0 = new_opts@[k];
                    assert(new_opts@.contains(t0));
                    lemma_filtered_upto_membership(
                        opts_view(gcur),
                        tiles@,
                        wi,
                        hi,
                        idx as int,
                        nt,
                        t0,
                    );
                    assert(allowed(opts_view(gcur), tiles@, wi, hi, idx as int, t0));
                    let nb = nbr_index(wi, idx as int, d);
                    assert(nbr_allows(opts_view(gcur)[nb], tiles@, d, t0));
                    assert(nb != idx as int);
                    assert(gnew[nb] == gcur[nb]);
                    assert(gcur[nb].collapsed);
                    assert(cell_wf(gcur[nb], nt));
                    assert(gcur[nb].options@.len() == 1);
                    let o = gcur[nb].options@[0];
                    let kw = choose|kk: int|
                        0 <= kk < gcur[nb].options@.len() && edge_seq(
                            tiles@[gcur[nb].options@[kk] as int].edges,
                            opposite(d),
                        ).contains(t0);
                    assert(kw == 0);
                    assert(edge_seq(tiles@[o as int].edges, opposite(d)).contains(t0));
                    assert(0 <= opposite(d) < 4);
                    crate::tile::lemma_adjacency_table_exact(tiles@, o as int, opposite(d), t0);
                }
                // older cells keep their fit
                assert forall|i: int|
                    0 <= i < idx as int + 1 && !(#[trigger] gnew[i]).collapsed
                        implies respects_collapsed_nbrs(gnew, tiles@, wi, hi, i) by {
                    if i < idx as int {
                        assert(respects_collapsed_nbrs(gcur, tiles@, wi, hi, i));
                        lemma_respects_preserved(gcur, gnew, tiles@, wi, hi, i, idx as int);
                    }
                }
            }
        }
        idx += 1;
    }
}

} // verus!
