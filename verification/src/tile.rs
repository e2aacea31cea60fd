//! Tiles and their connection signatures.
//!
//! A tile carries a 4-entry connection signature, one symbolic edge value per
//! side, and — once the catalog has been analyzed — four per-side adjacency
//! lists of the catalog indices that may legally sit on that side.  Sides are
//! indexed 0 = up, 1 = left, 2 = down, 3 = right, the same order in which the
//! signature stores its entries; index `side + 2 (mod 4)` is always the
//! opposite side.

use vstd::prelude::*;
use crate::WfcError;

verus! {

/// The edge-connection alphabet: what a tile shows along one of its sides.
#[derive(Debug, Clone, Copy, PartialEq, Eq, Structural)]
pub enum Connections {
    BLANK,
    PATH,
}

/// The connection value a raw byte stands for, when it stands for one.
pub open spec fn conn_of_byte(v: u8) -> Connections {
    if v == 0 {
        Connections::BLANK
    } else {
        Connections::PATH
    }
}

/// The side opposite a given side: up <-> down, left <-> right.
pub open spec fn opposite(side: int) -> int {
    (side + 2) % 4
}

/// A signature cyclically rotated left by `k` places; rotating the tile by
/// 90 degrees rotates its signature left by one place.
pub open spec fn rotl(s: Seq<Connections>, k: int) -> Seq<Connections>
    recommends
        0 <= k <= s.len(),
{
    s.subrange(k, s.len() as int) + s.subrange(0, k)
}

/// The matching rule: tile `u` may sit on side `side` of tile `t` exactly
/// when `u`'s value on the opposite side equals `t`'s value on `side`.
pub open spec fn compatible(t: Seq<Connections>, u: Seq<Connections>, side: int) -> bool
    recommends
        t.len() == 4,
        u.len() == 4,
        0 <= side < 4,
{
    u[opposite(side)] == t[side]
}

impl Connections {
    /// Decodes a raw signature, one byte per side.  Bytes outside the edge
    /// alphabet are rejected rather than guessed at.
    pub fn from_vec(vec: Vec<u8>) -> (r: Result<Vec<Connections>, WfcError>)
        ensures
            (forall|k: int| 0 <= k < vec@.len() ==> vec@[k] <= 1) <==> r is Ok,
            r matches Ok(c) ==> c@.len() == vec@.len()
                && (forall|k: int| 0 <= k < vec@.len() ==> c@[k] == conn_of_byte(vec@[k])),
            r is Err ==> r == Result::<Vec<Connections>, WfcError>::Err(
                WfcError::InvalidConnectionValue,
            ),
    {
        let mut out: Vec<Connections> = Vec::new();
        let mut i: usize = 0;
        while i < vec.len()
            invariant
                i <= vec@.len(),
                out@.len() == i,
                forall|k: int| 0 <= k < i ==> vec@[k] <= 1,
                forall|k: int| 0 <= k < i ==> out@[k] == conn_of_byte(vec@[k]),
            decreases vec@.len() - i,
        {
            match vec[i] {
                0 => out.push(Connections::BLANK),
                1 => out.push(Connections::PATH),
                _ => {
                    return Err(WfcError::InvalidConnectionValue);
                },
            }
            i += 1;
        }
        Ok(out)
    }
}

/// Per-side adjacency lists: for each side of a tile, the catalog indices of
/// the tiles that may legally sit on that side.
#[derive(Debug)]
pub struct Edges {
    pub up: Vec<usize>,
    pub right: Vec<usize>,
    pub down: Vec<usize>,
    pub left: Vec<usize>,
}

/// The adjacency list a side index names: 0 = up, 1 = left, 2 = down,
/// 3 = right.
pub open spec fn edge_seq(e: Edges, side: int) -> Seq<usize>
    recommends
        0 <= side < 4,
{
    if side == 0 {
        e.up@
    } else if side == 1 {
        e.left@
    } else if side == 2 {
        e.down@
    } else {
        e.right@
    }
}

impl Edges {
    /// Four empty adjacency lists, as a tile has them before analysis.
    pub fn new() -> (r: Self)
        ensures
            forall|s: int| 0 <= s < 4 ==> edge_seq(r, s) == Seq::<usize>::empty(),
    {
        Edges { up: Vec::new(), right: Vec::new(), down: Vec::new(), left: Vec::new() }
    }

    /// The adjacency list for a side index, or `None` for an index that names
    /// no side.
    pub fn get_from_index(&self, index: usize) -> (r: Option<&Vec<usize>>)
        ensures
            index < 4 <==> r is Some,
            r matches Some(v) ==> v@ == edge_seq(*self, index as int),
    {
        match index {
            0 => Some(&self.up),
            1 => Some(&self.left),
            2 => Some(&self.down),
            3 => Some(&self.right),
            _ => None,
        }
    }

    /// Mutable access to the adjacency list for a side index, or `None` for
    /// an index that names no side.
    pub fn get_mut_from_index(&mut self, index: usize) -> (r: Option<&mut Vec<usize>>)
        ensures
            index >= 4 ==> r is None && *final(self) == *old(self),
            index < 4 ==> (r matches Some(v) && v@ == edge_seq(*old(self), index as int)
                && edge_seq(*final(self), index as int) == final(v)@ && (forall|s: int|
                0 <= s < 4 && s != index ==> edge_seq(*final(self), s) == edge_seq(
                    *old(self),
                    s,
                ))),
    {
        match index {
            0 => Some(&mut self.up),
            1 => Some(&mut self.left),
            2 => Some(&mut self.down),
            3 => Some(&mut self.right),
            _ => None,
        }
    }
}

/// A catalog tile: its connection signature and, after analysis, its
/// adjacency lists.
#[derive(Debug)]
pub struct Tile {
    pub connections: Vec<Connections>,
    pub edges: Edges,
}

/// Every signature in the catalog has exactly one entry per side.
pub open spec fn catalog_sigs_wf(tiles: Seq<Tile>) -> bool {
    forall|i: int| 0 <= i < tiles.len() ==> #[trigger] tiles[i].connections@.len() == 4
}

/// The catalog indices below `n` whose tiles may sit on side `side` of a
/// tile with signature `t`, in increasing order.
pub open spec fn compat_upto(t: Seq<Connections>, tiles: Seq<Tile>, side: int, n: int) -> Seq<
    usize,
>
    decreases n,
{
    if n <= 0 {
        Seq::empty()
    } else if compatible(t, tiles[n - 1].connections@, side) {
        compat_upto(t, tiles, side, n - 1).push((n - 1) as usize)
    } else {
        compat_upto(t, tiles, side, n - 1)
    }
}

/// A tile whose adjacency lists are exactly the compatibility sets the
/// matching rule gives against `tiles`.
pub open spec fn tile_analyzed(t: Tile, tiles: Seq<Tile>) -> bool {
    forall|s: int|
        0 <= s < 4 ==> #[trigger] edge_seq(t.edges, s) == compat_upto(
            t.connections@,
            tiles,
            s,
            tiles.len() as int,
        )
}

/// A catalog whose every tile has been analyzed against the catalog itself.
pub open spec fn catalog_analyzed(tiles: Seq<Tile>) -> bool {
    catalog_sigs_wf(tiles) && forall|i: int|
        0 <= i < tiles.len() ==> tile_analyzed(#[trigger] tiles[i], tiles)
}

impl Tile {
    /// Builds a tile from a raw 4-byte signature, with empty adjacency lists.
    /// A byte outside the edge alphabet is rejected.
    pub fn from(connections: Vec<u8>) -> (r: Result<Tile, WfcError>)
        requires
            connections@.len() == 4,
        ensures
            (forall|k: int| 0 <= k < 4 ==> connections@[k] <= 1) <==> r is Ok,
            r matches Ok(t) ==> t.connections@.len() == 4 && (forall|k: int|
                0 <= k < 4 ==> t.connections@[k] == conn_of_byte(connections@[k])) && (forall|
                s: int,
            |
                0 <= s < 4 ==> edge_seq(t.edges, s) == Seq::<usize>::empty()),
            r is Err ==> r == Result::<Tile, WfcError>::Err(WfcError::InvalidConnectionValue),
    {
        match Connections::from_vec(connections) {
            Ok(c) => Ok(Tile { connections: c, edges: Edges::new() }),
            Err(e) => Err(e),
        }
    }

    /// Rotates the tile by 90 degrees: the signature rotates left one place.
    /// The adjacency lists are left as they were; they are only meaningful
    /// once the finished catalog is analyzed.
    pub fn rotate90(&mut self)
        requires
            old(self).connections@.len() == 4,
        ensures
            final(self).connections@ == rotl(old(self).connections@, 1),
            final(self).edges == old(self).edges,
    {
        let rotated = rotated_signature(&self.connections, 1);
        self.connections = rotated;
    }

    /// Rotates the tile by 180 degrees: the signature rotates left two
    /// places.
    pub fn rotate180(&mut self)
        requires
            old(self).connections@.len() == 4,
        ensures
            final(self).connections@ == rotl(old(self).connections@, 2),
            final(self).edges == old(self).edges,
    {
        let rotated = rotated_signature(&self.connections, 2);
        self.connections = rotated;
    }

    /// Rotates the tile by 270 degrees: the signature rotates left three
    /// places.
    pub fn rotate270(&mut self)
        requires
            old(self).connections@.len() == 4,
        ensures
            final(self).connections@ == rotl(old(self).connections@, 3),
            final(self).edges == old(self).edges,
    {
        let rotated = rotated_signature(&self.connections, 3);
        self.connections = rotated;
    }

    /// A copy of the tile rotated by 90 degrees; the tile itself is left
    /// untouched.
    pub fn get_rotated90(&self) -> (r: Tile)
        requires
            self.connections@.len() == 4,
        ensures
            r.connections@ == rotl(self.connections@, 1),
            forall|s: int| 0 <= s < 4 ==> edge_seq(r.edges, s) == edge_seq(self.edges, s),
    {
        let mut clone = self.duplicate();
        clone.rotate90();
        clone
    }

    /// A copy of the tile rotated by 180 degrees.
    pub fn get_rotated180(&self) -> (r: Tile)
        requires
            self.connections@.len() == 4,
        ensures
            r.connections@ == rotl(self.connections@, 2),
            forall|s: int| 0 <= s < 4 ==> edge_seq(r.edges, s) == edge_seq(self.edges, s),
    {
        let mut clone = self.duplicate();
        clone.rotate180();
        clone
    }

    /// A copy of the tile rotated by 270 degrees.
    pub fn get_rotated270(&self) -> (r: Tile)
        requires
            self.connections@.len() == 4,
        ensures
            r.connections@ == rotl(self.connections@, 3),
            forall|s: int| 0 <= s < 4 ==> edge_seq(r.edges, s) == edge_seq(self.edges, s),
    {
        let mut clone = self.duplicate();
        clone.rotate270();
        clone
    }

    /// A field-by-field copy of the tile.
    pub fn duplicate(&self) -> (r: Tile)
        ensures
            r.connections@ == self.connections@,
            forall|s: int| 0 <= s < 4 ==> edge_seq(r.edges, s) == edge_seq(self.edges, s),
    {
        Tile {
            connections: clone_connections(&self.connections),
            edges: Edges {
                up: clone_indices(&self.edges.up),
                right: clone_indices(&self.edges.right),
                down: clone_indices(&self.edges.down),
                left: clone_indices(&self.edges.left),
            },
        }
    }

    /// Recomputes this tile's adjacency lists against a catalog: for each
    /// side, the list holds exactly the catalog indices whose tiles satisfy
    /// the matching rule on that side, in increasing order.
    pub fn analyze(&mut self, tiles: &Vec<Tile>)
        requires
            old(self).connections@.len() == 4,
            catalog_sigs_wf(tiles@),
        ensures
            final(self).connections == old(self).connections,
            tile_analyzed(*final(self), tiles@),
    {
        let mut up: Vec<usize> = Vec::new();
        let mut left: Vec<usize> = Vec::new();
        let mut down: Vec<usize> = Vec::new();
        let mut right: Vec<usize> = Vec::new();
        let mut ti: usize = 0;
        while ti < tiles.len()
            invariant
                ti <= tiles@.len(),
                self == old(self),
                old(self).connections@.len() == 4,
                catalog_sigs_wf(tiles@),
                up@ == compat_upto(old(self).connections@, tiles@, 0, ti as int),
                left@ == compat_upto(old(self).connections@, tiles@, 1, ti as int),
                down@ == compat_upto(old(self).connections@, tiles@, 2, ti as int),
                right@ == compat_upto(old(self).connections@, tiles@, 3, ti as int),
            decreases tiles@.len() - ti,
        {
            let other = &tiles[ti].connections;
            if other[2] == self.connections[0] {
                up.push(ti);
            }
            if other[3] == self.connections[1] {
                left.push(ti);
            }
            if other[0] == self.connections[2] {
                down.push(ti);
            }
            if other[1] == self.connections[3] {
                right.push(ti);
            }
            ti += 1;
        }
        self.edges = Edges { up, right, down, left };
    }
}

/// A copy of a connection signature.
fn clone_connections(v: &Vec<Connections>) -> (r: Vec<Connections>)
    ensures
        r@ == v@,
{
    let mut out: Vec<Connections> = Vec::new();
    let mut i: usize = 0;
    while i < v.len()
        invariant
            i <= v@.len(),
            out@ == v@.subrange(0, i as int),
        decreases v@.len() - i,
    {
        out.push(v[i]);
        i += 1;
    }
    proof {
        assert(out@ =~= v@);
    }
    out
}

/// A copy of a list of catalog indices.
fn clone_indices(v: &Vec<usize>) -> (r: Vec<usize>)
    ensures
        r@ == v@,
{
    let mut out: Vec<usize> = Vec::new();
    let mut i: usize = 0;
    while i < v.len()
        invariant
            i <= v@.len(),
            out@ == v@.subrange(0, i as int),
        decreases v@.len() - i,
    {
        out.push(v[i]);
        i += 1;
    }
    proof {
        assert(out@ =~= v@);
    }
    out
}

/// A signature cyclically rotated left by `k` places, as a fresh vector.
fn rotated_signature(v: &Vec<Connections>, k: usize) -> (r: Vec<Connections>)
    requires
        k <= v@.len(),
    ensures
        r@ == rotl(v@, k as int),
{
    let mut out: Vec<Connections> = Vec::new();
    let mut i: usize = k;
    while i < v.len()
        invariant
            k <= i <= v@.len(),
            out@ == v@.subrange(k as int, i as int),
        decreases v@.len() - i,
    {
        out.push(v[i]);
        i += 1;
    }
    let mut j: usize = 0;
    while j < k
        invariant
            j <= k <= v@.len(),
            out@ == v@.subrange(k as int, v@.len() as int) + v@.subrange(0, j as int),
        decreases k - j,
    {
        out.push(v[j]);
        j += 1;
    }
    proof {
        assert(out@ =~= rotl(v@, k as int));
    }
    out
}

/// Builds the full catalog from a list of base tiles: each base tile yields
/// four consecutive entries, itself and its 90-, 180- and 270-degree
/// rotations, every entry with empty adjacency lists.  No deduplication takes
/// place when rotations coincide.
pub fn build_catalog(base_tiles: Vec<Tile>) -> (r: Vec<Tile>)
    requires
        catalog_sigs_wf(base_tiles@),
        4 * base_tiles@.len() <= usize::MAX,
    ensures
        r@.len() == 4 * base_tiles@.len(),
        forall|i: int, k: int|
            0 <= i < base_tiles@.len() && 0 <= k < 4 ==> #[trigger] r@[4 * i + k].connections@
                == rotl(base_tiles@[i].connections@, k),
        forall|j: int, s: int|
            0 <= j < r@.len() && 0 <= s < 4 ==> #[trigger] edge_seq(r@[j].edges, s) == Seq::<
                usize,
            >::empty(),
        catalog_sigs_wf(r@),
{
    let mut out: Vec<Tile> = Vec::new();
    let mut i: usize = 0;
    while i < base_tiles.len()
        invariant
            i <= base_tiles@.len(),
            catalog_sigs_wf(base_tiles@),
            4 * base_tiles@.len() <= usize::MAX,
            out@.len() == 4 * i,
            forall|p: int, k: int|
                0 <= p < i && 0 <= k < 4 ==> #[trigger] out@[4 * p + k].connections@ == rotl(
                    base_tiles@[p].connections@,
                    k,
                ),
            forall|j: int, s: int|
                0 <= j < out@.len() && 0 <= s < 4 ==> #[trigger] edge_seq(out@[j].edges, s)
                    == Seq::<usize>::empty(),
            catalog_sigs_wf(out@),
        decreases base_tiles@.len() - i,
    {
        let base = &base_tiles[i];
        proof {
            assert(rotl(base.connections@, 0) =~= base.connections@);
        }
        out.push(Tile { connections: clone_connections(&base.connections), edges: Edges::new() });
        out.push(Tile { connections: rotated_signature(&base.connections, 1), edges: Edges::new() });
        out.push(Tile { connections: rotated_signature(&base.connections, 2), edges: Edges::new() });
        out.push(Tile { connections: rotated_signature(&base.connections, 3), edges: Edges::new() });
        i += 1;
    }
    out
}

/// Analyzes a whole catalog: returns tiles with the same signatures, each
/// with its adjacency lists recomputed against the catalog's signatures.
pub fn analyze_catalog(tiles: &Vec<Tile>) -> (r: Vec<Tile>)
    requires
        catalog_sigs_wf(tiles@),
    ensures
        r@.len() == tiles@.len(),
        forall|i: int|
            0 <= i < tiles@.len() ==> #[trigger] r@[i].connections@ == tiles@[i].connections@,
        catalog_analyzed(r@),
{
    let mut out: Vec<Tile> = Vec::new();
    let mut i: usize = 0;
    while i < tiles.len()
        invariant
            i <= tiles@.len(),
            catalog_sigs_wf(tiles@),
            out@.len() == i,
            forall|p: int|
                0 <= p < i ==> #[trigger] out@[p].connections@ == tiles@[p].connections@,
            forall|p: int| 0 <= p < i ==> tile_analyzed(#[trigger] out@[p], tiles@),
        decreases tiles@.len() - i,
    {
        let mut t = tiles[i].duplicate();
        t.analyze(tiles);
        out.push(t);
        i += 1;
    }
    proof {
        assert forall|p: int| 0 <= p < out@.len() implies tile_analyzed(
            #[trigger] out@[p],
            out@,
        ) by {
            assert(tile_analyzed(out@[p], tiles@));
            lemma_compat_upto_same_connections(out@[p].connections@, tiles@, out@, tiles@.len() as int);
        }
    }
    out
}

/// Two catalogs whose tiles have the same signatures produce the same
/// compatibility sets.
proof fn lemma_compat_upto_same_connections(
    t: Seq<Connections>,
    tiles1: Seq<Tile>,
    tiles2: Seq<Tile>,
    n: int,
)
    requires
        tiles1.len() == tiles2.len(),
        forall|i: int| 0 <= i < tiles1.len() ==> #[trigger] tiles2[i].connections@ == tiles1[i].connections@,
        n <= tiles1.len(),
    ensures
        forall|s: int|
            0 <= s < 4 ==> #[trigger] compat_upto(t, tiles2, s, n) == compat_upto(t, tiles1, s, n),
    decreases n,
{
    if n > 0 {
        lemma_compat_upto_same_connections(t, tiles1, tiles2, n - 1);
        assert forall|s: int|
            0 <= s < 4 implies #[trigger] compat_upto(t, tiles2, s, n) == compat_upto(
            t,
            tiles1,
            s,
            n,
        ) by {
            assert(compat_upto(t, tiles2, s, n - 1) == compat_upto(t, tiles1, s, n - 1));
            assert(tiles2[n - 1].connections@ == tiles1[n - 1].connections@);
        }
    }
}

/// Membership in a compatibility set is exactly the matching rule: an index
/// is in `compat_upto(t, tiles, side, n)` when it is below `n` and its tile's
/// signature matches `t` on `side`.
pub proof fn lemma_compat_upto_membership(
    t: Seq<Connections>,
    tiles: Seq<Tile>,
    side: int,
    n: int,
    u: usize,
)
    requires
        0 <= n <= tiles.len(),
        n <= usize::MAX,
    ensures
        compat_upto(t, tiles, side, n).contains(u) <==> (u < n && compatible(
            t,
            tiles[u as int].connections@,
            side,
        )),
    decreases n,
{
    if n > 0 {
        lemma_compat_upto_membership(t, tiles, side, n - 1, u);
        if compatible(t, tiles[n - 1].connections@, side) {
            let prev = compat_upto(t, tiles, side, n - 1);
            assert(compat_upto(t, tiles, side, n) == prev.push((n - 1) as usize));
            vstd::seq_lib::lemma_seq_contains_after_push(prev, (n - 1) as usize, u);
        }
    }
}

/// The adjacency tables are exact: after analysis, tile `u` stands in tile
/// `i`'s list for side `s` exactly when `u`'s signature matches `i`'s on that
/// side — for every pair of tiles in the catalog and every side.
pub proof fn lemma_adjacency_table_exact(tiles: Seq<Tile>, i: int, s: int, u: usize)
    requires
        catalog_analyzed(tiles),
        tiles.len() <= usize::MAX,
        0 <= i < tiles.len(),
        0 <= s < 4,
    ensures
        edge_seq(tiles[i].edges, s).contains(u) <==> (u < tiles.len() && compatible(
            tiles[i].connections@,
            tiles[u as int].connections@,
            s,
        )),
{
    assert(tile_analyzed(tiles[i], tiles));
    lemma_compat_upto_membership(tiles[i].connections@, tiles, s, tiles.len() as int, u);
}

/// The matching rule is symmetric: `u` may sit on side `s` of `t` exactly
/// when `t` may sit on the opposite side of `u`.
pub proof fn lemma_compatible_symmetric(t: Seq<Connections>, u: Seq<Connections>, s: int)
    requires
        t.len() == 4,
        u.len() == 4,
        0 <= s < 4,
    ensures
        compatible(t, u, s) <==> compatible(u, t, opposite(s)),
        opposite(opposite(s)) == s,
{
    assert(opposite(opposite(s)) == s) by {
        assert(0 <= s < 4);
        assert((((s + 2) % 4) + 2) % 4 == s) by (nonlinear_arith)
            requires 0 <= s < 4;
    }
}

/// Rotating a tile four times by 90 degrees returns its signature to the
/// original: a cyclic left-rotation by one place, applied four times to a
/// 4-entry signature, is the identity.
pub proof fn lemma_rotate_four_times_is_identity(s: Seq<Connections>)
    requires
        s.len() == 4,
    ensures
        rotl(rotl(rotl(rotl(s, 1), 1), 1), 1) == s,
{
    assert(rotl(rotl(rotl(rotl(s, 1), 1), 1), 1) =~= s);
}

} // verus!
