//! The entropy-driven solver.
//!
//! Each round collapses one lowest-entropy cell — ties broken uniformly at
//! random, the tile drawn uniformly from the cell's candidates — and then
//! runs one constraint-propagation pass over the whole grid.  After
//! `width * height` rounds every cell is collapsed, unless a cell's
//! candidate set ran empty first, which aborts the attempt.

use vstd::prelude::*;
use crate::WfcError;
use crate::grid::{
    GridCell,
    cell_wf,
    grid_wf,
    has_nbr,
    init_grid,
    lemma_nbr_dual,
    nbr_index,
    respects_collapsed_nbrs,
    update_grid,
};
use crate::rng::RandomSource;
use crate::tile::{Tile, catalog_analyzed, compatible, lemma_compatible_symmetric, opposite};

verus! {

/// How many cells of the grid are collapsed.
pub open spec fn count_collapsed(grid: Seq<GridCell>) -> int
    decreases grid.len(),
{
    if grid.len() == 0 {
        0
    } else {
        count_collapsed(grid.drop_last()) + if grid.last().collapsed {
            1int
        } else {
            0int
        }
    }
}

proof fn lemma_count_collapsed_bounds(g: Seq<GridCell>)
    ensures
        0 <= count_collapsed(g) <= g.len(),
    decreases g.len(),
{
    if g.len() > 0 {
        lemma_count_collapsed_bounds(g.drop_last());
    }
}

/// The count reaches the grid size exactly when every cell is collapsed.
proof fn lemma_count_collapsed_full(g: Seq<GridCell>)
    ensures
        count_collapsed(g) == g.len() <==> (forall|i: int|
            0 <= i < g.len() ==> (#[trigger] g[i]).collapsed),
    decreases g.len(),
{
    lemma_count_collapsed_bounds(g);
    if g.len() > 0 {
        let prefix = g.drop_last();
        lemma_count_collapsed_full(prefix);
        lemma_count_collapsed_bounds(prefix);
        if count_collapsed(g) == g.len() {
            assert forall|i: int| 0 <= i < g.len() implies (#[trigger] g[i]).collapsed by {
                if i < g.len() - 1 {
                    assert(prefix[i] == g[i]);
                    assert(prefix[i].collapsed);
                } else {
                    assert(g.last().collapsed);
                }
            }
        }
        if forall|i: int| 0 <= i < g.len() ==> (#[trigger] g[i]).collapsed {
            assert forall|i: int| 0 <= i < prefix.len() implies (#[trigger] prefix[i]).collapsed by {
                assert(prefix[i] == g[i]);
            }
            assert(count_collapsed(prefix) == prefix.len());
            assert(g[g.len() - 1].collapsed);
            assert(count_collapsed(g) == g.len());
        }
    }
}

proof fn lemma_count_collapsed_none(g: Seq<GridCell>)
    requires
        forall|i: int| 0 <= i < g.len() ==> !(#[trigger] g[i]).collapsed,
    ensures
        count_collapsed(g) == 0,
    decreases g.len(),
{
    if g.len() > 0 {
        let prefix = g.drop_last();
        assert forall|i: int| 0 <= i < prefix.len() implies !(#[trigger] prefix[i]).collapsed by {
            assert(prefix[i] == g[i]);
        }
        lemma_count_collapsed_none(prefix);
        assert(!g[g.len() - 1].collapsed);
    }
}

proof fn lemma_count_collapsed_update(g: Seq<GridCell>, i: int, c: GridCell)
    requires
        0 <= i < g.len(),
    ensures
        count_collapsed(g.update(i, c)) == count_collapsed(g) - (if g[i].collapsed {
            1int
        } else {
            0int
        }) + (if c.collapsed {
            1int
        } else {
            0int
        }),
    decreases g.len(),
{
    let g2 = g.update(i, c);
    if i == g.len() - 1 {
        assert(g2.drop_last() =~= g.drop_last());
        assert(g2.last() == c);
    } else {
        assert(g2.drop_last() =~= g.drop_last().update(i, c));
        assert(g2.last() == g.last());
        lemma_count_collapsed_update(g.drop_last(), i, c);
    }
}

/// The count depends only on the flags.
proof fn lemma_count_collapsed_flags(g1: Seq<GridCell>, g2: Seq<GridCell>)
    requires
        g1.len() == g2.len(),
        forall|i: int| 0 <= i < g1.len() ==> (#[trigger] g1[i]).collapsed == g2[i].collapsed,
    ensures
        count_collapsed(g1) == count_collapsed(g2),
    decreases g1.len(),
{
    if g1.len() > 0 {
        let p1 = g1.drop_last();
        let p2 = g2.drop_last();
        assert forall|i: int| 0 <= i < p1.len() implies (#[trigger] p1[i]).collapsed
            == p2[i].collapsed by {
            assert(p1[i] == g1[i]);
            assert(p2[i] == g2[i]);
        }
        lemma_count_collapsed_flags(p1, p2);
        assert(g1[g1.len() - 1].collapsed == g2[g2.len() - 1].collapsed);
    }
}

/// The smallest candidate count among uncollapsed cells, when one exists.
fn lowest_entropy(grid: &Vec<GridCell>) -> (r: Option<usize>)
    ensures
        r is None <==> (forall|i: int| 0 <= i < grid@.len() ==> (#[trigger] grid@[i]).collapsed),
        r matches Some(m) ==> (exists|i: int|
            0 <= i < grid@.len() && !(#[trigger] grid@[i]).collapsed && grid@[i].options@.len()
                == m) && (forall|i: int|
            0 <= i < grid@.len() && !(#[trigger] grid@[i]).collapsed ==> m
                <= grid@[i].options@.len()),
{
    let mut best: Option<usize> = None;
    let mut i: usize = 0;
    while i < grid.len()
        invariant
            i <= grid@.len(),
            best is None <==> (forall|k: int| 0 <= k < i ==> (#[trigger] grid@[k]).collapsed),
            best matches Some(m) ==> (exists|k: int|
                0 <= k < i && !(#[trigger] grid@[k]).collapsed && grid@[k].options@.len() == m) && (
            forall|k: int|
                0 <= k < i && !(#[trigger] grid@[k]).collapsed ==> m <= grid@[k].options@.len()),
        decreases grid@.len() - i,
    {
        if !grid[i].collapsed {
            let e = grid[i].options.len();
            best = match best {
                None => Some(e),
                Some(m) => if e < m {
                    Some(e)
                } else {
                    Some(m)
                },
            };
        }
        i += 1;
    }
    best
}

/// The uncollapsed cells whose candidate count equals `m`, in row-major
/// order.
fn tied_cells(grid: &Vec<GridCell>, m: usize) -> (r: Vec<usize>)
    ensures
        forall|k: int|
            0 <= k < r@.len() ==> ((#[trigger] r@[k]) < grid@.len() && !grid@[r@[k] as int].collapsed
                && grid@[r@[k] as int].options@.len() == m),
        forall|i: int|
            0 <= i < grid@.len() && !(#[trigger] grid@[i]).collapsed && grid@[i].options@.len() == m
                ==> r@.contains(i as usize),
{
    let mut out: Vec<usize> = Vec::new();
    let mut i: usize = 0;
    while i < grid.len()
        invariant
            i <= grid@.len(),
            forall|k: int|
                0 <= k < out@.len() ==> ((#[trigger] out@[k]) < grid@.len() && !grid@[out@[k] as int].collapsed
                    && grid@[out@[k] as int].options@.len() == m),
            forall|p: int|
                0 <= p < i && !(#[trigger] grid@[p]).collapsed && grid@[p].options@.len() == m
                    ==> out@.contains(p as usize),
        decreases grid@.len() - i,
    {
        if !grid[i].collapsed && grid[i].options.len() == m {
            let ghost old_out = out@;
            out.push(i);
            proof {
                assert forall|p: int|
                    0 <= p < i + 1 && !(#[trigger] grid@[p]).collapsed && grid@[p].options@.len()
                        == m implies out@.contains(p as usize) by {
                    vstd::seq_lib::lemma_seq_contains_after_push(old_out, i as usize, p as usize);
                    if p == i {
                        assert(out@[out@.len() - 1] == i as usize);
                    }
                }
            }
        }
        i += 1;
    }
    out
}

/// Replaces an option list by one of its entries, chosen uniformly at
/// random.
pub fn get_random_tile(options: &mut Vec<usize>, rng: &mut RandomSource)
    requires
        old(options)@.len() > 0,
    ensures
        exists|i: int|
            0 <= i < old(options)@.len() && final(options)@ == seq![old(options)@[i]],
{
    let pick = rng.next_below(options.len());
    let chosen = options[pick];
    let mut single: Vec<usize> = Vec::new();
    single.push(chosen);
    *options = single;
    proof {
        assert(options@ =~= seq![old(options)@[pick as int]]);
    }
}

/// One collapse step from `g1` to `g2`: cell `i`, an uncollapsed cell of
/// minimal entropy, became fixed to one of its own candidates; every other
/// cell is untouched.
pub open spec fn collapsed_step(g1: Seq<GridCell>, g2: Seq<GridCell>, i: int) -> bool {
    &&& 0 <= i < g1.len()
    &&& !g1[i].collapsed
    &&& (forall|j: int|
        0 <= j < g1.len() && !(#[trigger] g1[j]).collapsed ==> g1[i].options@.len()
            <= g1[j].options@.len())
    &&& g2 == g1.update(i, g2[i])
    &&& g2[i].collapsed
    &&& g2[i].id == g1[i].id
    &&& g2[i].options@.len() == 1
    &&& g1[i].options@.contains(g2[i].options@[0])
}

/// Collapses one lowest-entropy cell: among the uncollapsed cells with the
/// fewest candidates one is chosen uniformly at random, marked collapsed, and
/// fixed to a uniformly chosen candidate.  Fails with `NoUncollapsedCells`
/// when every cell is already collapsed, and with `Contradiction` when a
/// lowest-entropy cell has no candidates left; either failure leaves the grid
/// untouched.
pub fn collapse_lowest_entropy(grid: &mut Vec<GridCell>, rng: &mut RandomSource) -> (r: Result<
    (),
    WfcError,
>)
    ensures
        r is Ok <==> ((exists|i: int| 0 <= i < old(grid)@.len() && !(#[trigger] old(grid)@[i]).collapsed)
            && (forall|i: int|
            0 <= i < old(grid)@.len() && !(#[trigger] old(grid)@[i]).collapsed ==> old(
                grid,
            )@[i].options@.len() > 0)),
        r is Ok ==> exists|i: int| collapsed_step(old(grid)@, final(grid)@, i),
        r matches Err(e) ==> final(grid)@ == old(grid)@ && (e == WfcError::NoUncollapsedCells
            || e matches WfcError::Contradiction(_)),
        r == Result::<(), WfcError>::Err(WfcError::NoUncollapsedCells) <==> (forall|i: int|
            0 <= i < old(grid)@.len() ==> (#[trigger] old(grid)@[i]).collapsed),
        r matches Err(WfcError::Contradiction(ci)) ==> ci < old(grid)@.len() && !old(
            grid,
        )@[ci as int].collapsed && old(grid)@[ci as int].options@.len() == 0,
        (exists|i: int|
            0 <= i < old(grid)@.len() && !(#[trigger] old(grid)@[i]).collapsed && old(
                grid,
            )@[i].options@.len() == 0) <==> r matches Err(WfcError::Contradiction(_)),
{
    let m = match lowest_entropy(grid) {
        None => {
            return Err(WfcError::NoUncollapsedCells);
        },
        Some(m) => m,
    };
    let ties = tied_cells(grid, m);
    proof {
        let wit = choose|i: int|
            0 <= i < grid@.len() && !(#[trigger] grid@[i]).collapsed && grid@[i].options@.len()
                == m;
        assert(ties@.contains(wit as usize));
        assert(ties@.len() > 0);
    }
    if m == 0 {
        let ci = ties[0];
        return Err(WfcError::Contradiction(ci));
    }
    let pick = rng.next_below(ties.len());
    let ci = ties[pick];
    let ghost gpre = grid@;
    grid[ci].collapsed = true;
    proof {
        assert(grid@ == gpre.update(ci as int, grid@[ci as int]));
        assert(grid@[ci as int].options@.len() == m);
    }
    let ghost gmid = grid@;
    get_random_tile(&mut grid[ci].options, rng);
    proof {
        let kk = choose|k: int|
            0 <= k < gmid[ci as int].options@.len() && grid@[ci as int].options@ == seq![
                gmid[ci as int].options@[k],
            ];
        assert(grid@ == gmid.update(ci as int, grid@[ci as int]));
        assert(grid@ =~= gpre.update(ci as int, grid@[ci as int]));
        assert(gpre[ci as int].options@[kk] == grid@[ci as int].options@[0]);
        assert(gpre[ci as int].options@.contains(grid@[ci as int].options@[0]));
        assert(collapsed_step(gpre, grid@, ci as int));
    }
    Ok(())
}

/// The first uncollapsed cell with an empty candidate set, if any.
fn find_contradiction(grid: &Vec<GridCell>) -> (r: Option<usize>)
    ensures
        r matches Some(i) ==> i < grid@.len() && !grid@[i as int].collapsed && grid@[
            i as int
        ].options@.len() == 0,
        r is None ==> forall|i: int|
            0 <= i < grid@.len() && !(#[trigger] grid@[i]).collapsed ==> grid@[i].options@.len()
                > 0,
{
    let mut i: usize = 0;
    while i < grid.len()
        invariant
            i <= grid@.len(),
            forall|k: int|
                0 <= k < i && !(#[trigger] grid@[k]).collapsed ==> grid@[k].options@.len() > 0,
        decreases grid@.len() - i,
    {
        if !grid[i].collapsed && grid[i].options.len() == 0 {
            return Some(i);
        }
        i += 1;
    }
    None
}

/// After one cell collapses to one of its candidates, every collapsed cell
/// still fits its collapsed neighbors: the new fixed tile was among the
/// collapsing cell's candidates, which already fit, and the rule is
/// symmetric.
proof fn lemma_collapse_keeps_collapsed_fit(
    gpre: Seq<GridCell>,
    gmid: Seq<GridCell>,
    tiles: Seq<Tile>,
    w: int,
    h: int,
    ci: int,
)
    requires
        w >= 1,
        h >= 1,
        gpre.len() == w * h,
        gmid.len() == gpre.len(),
        catalog_analyzed(tiles),
        grid_wf(gpre, tiles.len() as int),
        0 <= ci < gpre.len(),
        !gpre[ci].collapsed,
        forall|p: int| 0 <= p < gpre.len() && p != ci ==> #[trigger] gmid[p] == gpre[p],
        gmid[ci].collapsed,
        gmid[ci].options@.len() == 1,
        gpre[ci].options@.contains(gmid[ci].options@[0]),
        forall|i: int|
            0 <= i < gpre.len() ==> #[trigger] respects_collapsed_nbrs(gpre, tiles, w, h, i),
    ensures
        forall|j: int|
            0 <= j < gmid.len() && (#[trigger] gmid[j]).collapsed ==> respects_collapsed_nbrs(
                gmid,
                tiles,
                w,
                h,
                j,
            ),
{
    assert forall|j: int|
        0 <= j < gmid.len() && (#[trigger] gmid[j]).collapsed implies respects_collapsed_nbrs(
        gmid,
        tiles,
        w,
        h,
        j,
    ) by {
        assert(respects_collapsed_nbrs(gpre, tiles, w, h, j));
        assert(respects_collapsed_nbrs(gpre, tiles, w, h, ci));
        assert forall|k: int, d: int|
            #![trigger gmid[j].options@[k], has_nbr(w, h, j, d)]
            0 <= k < gmid[j].options@.len() && 0 <= d < 4 && has_nbr(w, h, j, d) && gmid[nbr_index(
                w,
                j,
                d,
            )].collapsed implies compatible(
            tiles[gmid[nbr_index(w, j, d)].options@[0] as int].connections@,
            tiles[gmid[j].options@[k] as int].connections@,
            opposite(d),
        ) by {
            lemma_nbr_dual(w, h, j, d);
            let nb = nbr_index(w, j, d);
            let t_j = gmid[j].options@[k];
            if j == ci {
                let kk = choose|kk: int|
                    0 <= kk < gpre[ci].options@.len() && gpre[ci].options@[kk]
                        == gmid[ci].options@[0];
                assert(nb != ci);
                assert(gmid[nb] == gpre[nb]);
                assert(gpre[nb].collapsed);
                assert(k == 0);
                assert(gpre[ci].options@[kk] == t_j);
                assert(compatible(
                    tiles[gpre[nb].options@[0] as int].connections@,
                    tiles[gpre[ci].options@[kk] as int].connections@,
                    opposite(d),
                ));
            } else {
                assert(gmid[j] == gpre[j]);
                assert(gpre[j].collapsed);
                assert(cell_wf(gpre[j], tiles.len() as int));
                assert(gpre[j].options@.len() == 1);
                assert(k == 0);
                if nb == ci {
                    let t_i = gmid[ci].options@[0];
                    let kk = choose|kk: int|
                        0 <= kk < gpre[ci].options@.len() && gpre[ci].options@[kk] == t_i;
                    assert(has_nbr(w, h, ci, opposite(d)));
                    assert(nbr_index(w, ci, opposite(d)) == j);
                    assert(0 <= opposite(d) < 4);
                    assert(compatible(
                        tiles[gpre[j].options@[0] as int].connections@,
                        tiles[gpre[ci].options@[kk] as int].connections@,
                        opposite(opposite(d)),
                    ));
                    assert(cell_wf(gpre[ci], tiles.len() as int));
                    assert(t_i < tiles.len());
                    assert(t_j < tiles.len());
                    lemma_compatible_symmetric(
                        tiles[t_j as int].connections@,
                        tiles[t_i as int].connections@,
                        opposite(opposite(d)),
                    );
                    assert(opposite(opposite(d)) == d);
                    assert(compatible(
                        tiles[t_i as int].connections@,
                        tiles[t_j as int].connections@,
                        opposite(d),
                    ));
                } else {
                    assert(gmid[nb] == gpre[nb]);
                    assert(gpre[nb].collapsed);
                    assert(compatible(
                        tiles[gpre[nb].options@[0] as int].connections@,
                        tiles[gpre[j].options@[0] as int].connections@,
                        opposite(d),
                    ));
                }
            }
        }
    }
}

/// Propagation never touches collapsed cells, so their fit with their
/// collapsed neighbors carries over unchanged.
proof fn lemma_propagation_keeps_collapsed_fit(
    gmid: Seq<GridCell>,
    gfin: Seq<GridCell>,
    tiles: Seq<Tile>,
    w: int,
    h: int,
)
    requires
        w >= 1,
        h >= 1,
        gmid.len() == w * h,
        gfin.len() == gmid.len(),
        forall|i: int| 0 <= i < gmid.len() ==> (#[trigger] gfin[i]).collapsed == gmid[i].collapsed,
        forall|i: int|
            0 <= i < gmid.len() && gmid[i].collapsed ==> (#[trigger] gfin[i]).options@
                == gmid[i].options@,
        forall|j: int|
            0 <= j < gmid.len() && (#[trigger] gmid[j]).collapsed ==> respects_collapsed_nbrs(
                gmid,
                tiles,
                w,
                h,
                j,
            ),
    ensures
        forall|j: int|
            0 <= j < gfin.len() && (#[trigger] gfin[j]).collapsed ==> respects_collapsed_nbrs(
                gfin,
                tiles,
                w,
                h,
                j,
            ),
{
    assert forall|j: int|
        0 <= j < gfin.len() && (#[trigger] gfin[j]).collapsed implies respects_collapsed_nbrs(
        gfin,
        tiles,
        w,
        h,
        j,
    ) by {
        assert(gmid[j].collapsed);
        assert(respects_collapsed_nbrs(gmid, tiles, w, h, j));
        assert forall|k: int, d: int|
            #![trigger gfin[j].options@[k], has_nbr(w, h, j, d)]
            0 <= k < gfin[j].options@.len() && 0 <= d < 4 && has_nbr(w, h, j, d) && gfin[nbr_index(
                w,
                j,
                d,
            )].collapsed implies compatible(
            tiles[gfin[nbr_index(w, j, d)].options@[0] as int].connections@,
            tiles[gfin[j].options@[k] as int].connections@,
            opposite(d),
        ) by {
            lemma_nbr_dual(w, h, j, d);
            let nb = nbr_index(w, j, d);
            assert(gmid[nb].collapsed);
            assert(gfin[nb].options@ == gmid[nb].options@);
            assert(gfin[j].options@ == gmid[j].options@);
            assert(compatible(
                tiles[gmid[nb].options@[0] as int].connections@,
                tiles[gmid[j].options@[k] as int].connections@,
                opposite(d),
            ));
        }
    }
}

/// Solves a fresh `width x height` grid against an analyzed catalog: exactly
/// `width * height` rounds of collapse-then-propagate.  On success every
/// cell is collapsed to exactly one in-range tile index and every pair of
/// grid-adjacent cells satisfies the matching rule along their shared edge.
/// A zero-area grid is rejected as `EmptyGrid`; a cell whose candidates run
/// out aborts the attempt with `Contradiction`, naming the cell's row-major
/// index.  No other failure can come back.
pub fn solve(width: usize, height: usize, tiles: &Vec<Tile>, rng: &mut RandomSource) -> (r:
    Result<Vec<GridCell>, WfcError>)
    requires
        width * height <= usize::MAX,
        catalog_analyzed(tiles@),
    ensures
        width * height == 0 <==> r == Result::<Vec<GridCell>, WfcError>::Err(WfcError::EmptyGrid),
        r matches Err(e) ==> e == WfcError::EmptyGrid || e matches WfcError::Contradiction(_),
        r matches Ok(g) ==> ({
            &&& g@.len() == width * height
            &&& (forall|i: int|
                0 <= i < g@.len() ==> (#[trigger] g@[i]).collapsed && g@[i].options@.len() == 1
                    && g@[i].options@[0] < tiles@.len() && g@[i].id == i)
            &&& (forall|i: int, d: int|
                #![trigger has_nbr(width as int, height as int, i, d)]
                0 <= i < g@.len() && 0 <= d < 4 && has_nbr(width as int, height as int, i, d)
                    ==> compatible(
                    tiles@[g@[nbr_index(width as int, i, d)].options@[0] as int].connections@,
                    tiles@[g@[i].options@[0] as int].connections@,
                    opposite(d),
                ))
        }),
{
    if width == 0 || height == 0 {
        proof {
            assert(width * height == 0) by (nonlinear_arith)
                requires
                    width == 0 || height == 0,
            ;
        }
        return Err(WfcError::EmptyGrid);
    }
    proof {
        assert(width * height >= 1) by (nonlinear_arith)
            requires
                width >= 1,
                height >= 1,
        ;
    }
    let ghost wi = width as int;
    let ghost hi = height as int;
    let n_tiles = tiles.len();
    let ghost nt = tiles@.len() as int;
    let total = width * height;
    let mut grid = init_grid(width, height, n_tiles);
    proof {
        assert forall|i: int| 0 <= i < grid@.len() implies cell_wf(#[trigger] grid@[i], nt) by {
            assert(grid@[i].options@ == crate::grid::range_seq(nt));
        }
        assert forall|i: int| 0 <= i < grid@.len() implies !(#[trigger] grid@[i]).collapsed by {}
        lemma_count_collapsed_none(grid@);
        assert forall|i: int|
            0 <= i < grid@.len() implies respects_collapsed_nbrs(
            grid@,
            tiles@,
            wi,
            hi,
            i,
        ) by {
            assert forall|k: int, d: int|
                #![trigger grid@[i].options@[k], has_nbr(wi, hi, i, d)]
                0 <= k < grid@[i].options@.len() && 0 <= d < 4 && has_nbr(wi, hi, i, d)
                    && grid@[nbr_index(wi, i, d)].collapsed implies compatible(
                tiles@[grid@[nbr_index(wi, i, d)].options@[0] as int].connections@,
                tiles@[grid@[i].options@[k] as int].connections@,
                opposite(d),
            ) by {
                lemma_nbr_dual(wi, hi, i, d);
                assert(!grid@[nbr_index(wi, i, d)].collapsed);
            }
        }
    }
    let mut it: usize = 0;
    while it < total
        invariant
            it <= total,
            total == width * height,
            width >= 1,
            height >= 1,
            wi == width as int,
            hi == height as int,
            n_tiles == tiles@.len(),
            nt == tiles@.len() as int,
            catalog_analyzed(tiles@),
            grid@.len() == total,
            grid_wf(grid@, nt),
            forall|i: int| 0 <= i < grid@.len() ==> (#[trigger] grid@[i]).id == i,
            count_collapsed(grid@) == it,
            forall|i: int| 0 <= i < grid@.len() ==> #[trigger] respects_collapsed_nbrs(grid@, tiles@, wi, hi, i),
        decreases total - it,
    {
        let ghost gpre = grid@;
        match collapse_lowest_entropy(&mut grid, rng) {
            Ok(()) => {},
            Err(e) => {
                proof {
                    lemma_count_collapsed_full(gpre);
                }
                match e {
                    WfcError::Contradiction(ci) => {
                        return Err(WfcError::Contradiction(ci));
                    },
                    _ => {
                        proof {
                            assert(false);
                        }
                        return Err(WfcError::EmptyGrid);
                    },
                }
            },
        }
        proof {
            let ci = choose|i: int| collapsed_step(gpre, grid@, i);
            assert(collapsed_step(gpre, grid@, ci));
            lemma_count_collapsed_update(gpre, ci, grid@[ci]);
            assert(count_collapsed(grid@) == it + 1);
            // the new cell is well formed: its single option came from the
            // old candidate list
            let kk = choose|k: int|
                0 <= k < gpre[ci].options@.len() && gpre[ci].options@[k] == grid@[ci].options@[0];
            assert(cell_wf(gpre[ci], nt));
            assert(grid@[ci].options@[0] < nt);
            assert forall|i: int| 0 <= i < grid@.len() implies cell_wf(#[trigger] grid@[i], nt) by {
                if i != ci {
                    assert(grid@[i] == gpre[i]);
                }
                assert(cell_wf(gpre[i], nt));
            }
            assert forall|i: int| 0 <= i < grid@.len() implies (#[trigger] grid@[i]).id == i by {
                if i != ci {
                    assert(grid@[i] == gpre[i]);
                }
            }
            lemma_collapse_keeps_collapsed_fit(gpre, grid@, tiles@, wi, hi, ci);
        }
        let ghost gmid = grid@;
        update_grid(&mut grid, tiles, width, height);
        if let Some(ci) = find_contradiction(&grid) {
            return Err(WfcError::Contradiction(ci));
        }
        proof {
            lemma_count_collapsed_flags(gmid, grid@);
            lemma_propagation_keeps_collapsed_fit(gmid, grid@, tiles@, wi, hi);
            assert forall|i: int|
                0 <= i < grid@.len() implies respects_collapsed_nbrs(
                grid@,
                tiles@,
                wi,
                hi,
                i,
            ) by {
                if grid@[i].collapsed {
                    assert(respects_collapsed_nbrs(grid@, tiles@, wi, hi, i));
                } else {
                    assert(respects_collapsed_nbrs(grid@, tiles@, wi, hi, i));
                }
            }
        }
        it += 1;
    }
    proof {
        lemma_count_collapsed_full(grid@);
        assert forall|i: int, d: int|
            #![trigger has_nbr(wi, hi, i, d)]
            0 <= i < grid@.len() && 0 <= d < 4 && has_nbr(wi, hi, i, d) implies compatible(
            tiles@[grid@[nbr_index(wi, i, d)].options@[0] as int].connections@,
            tiles@[grid@[i].options@[0] as int].connections@,
            opposite(d),
        ) by {
            lemma_nbr_dual(wi, hi, i, d);
            assert(respects_collapsed_nbrs(grid@, tiles@, wi, hi, i));
            assert(grid@[nbr_index(wi, i, d)].collapsed);
            assert(grid@[i].options@.len() == 1);
            assert(compatible(
                tiles@[grid@[nbr_index(wi, i, d)].options@[0] as int].connections@,
                tiles@[grid@[i].options@[0] as int].connections@,
                opposite(d),
            ));
        }
    }
    Ok(grid)
}

} // verus!
