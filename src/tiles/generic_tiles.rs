//! A sparse, lazily allocated grid of square chunks with dirty tracking.
use std::collections::hash_map::Entry;
use std::collections::HashMap;
use vstd::prelude::*;

use super::sort_dedup::{
    has_pair_inner, has_pair_points, sort_dedup_inner, sort_dedup_points, strictly_sorted_inner,
    strictly_sorted_points,
};
use super::coord::{
    chunk_coord_to_corner as corner_of, chunk_of, combine_coord as combine, inner_of,
    point_to_chunk_coord as chunk_coord_of, point_to_inner_coord as inner_coord_of,
    split_coord as split, valid_chunk_size, lemma_split_combine, lemma_chunk_area,
};

verus! {

broadcast use vstd::std_specs::hash::group_hash_axioms;

/// A cell payload: it has a default value and says whether it must be drawn.
pub trait Tile: Sized {
    spec fn spec_default() -> Self;

    spec fn spec_needs_sprite(&self) -> bool;

    fn default_tile() -> (r: Self)
        ensures
            r == Self::spec_default(),
    ;

    fn needs_sprite(&self) -> (r: bool)
        ensures
            r == self.spec_needs_sprite(),
    ;
}

/// Position of inner coordinate `(x, y)` in a chunk's row-major cell list.
pub open spec fn cell_index(x: int, y: int, n: int) -> int {
    x * n + y
}

pub proof fn lemma_cell_index(x: int, y: int, n: int)
    requires
        0 <= x < n,
        0 <= y < n,
    ensures
        0 <= cell_index(x, y, n) < n * n,
        cell_index(x, y, n) / n == x,
        cell_index(x, y, n) % n == y,
{
    assert(0 <= x * n + y < n * n) by (nonlinear_arith)
        requires
            0 <= x < n,
            0 <= y < n,
    ;
    vstd::arithmetic::div_mod::lemma_fundamental_div_mod_converse(x * n + y, n, x, y);
}

pub proof fn lemma_index_split(j: int, n: int)
    requires
        0 < n,
        0 <= j < n * n,
    ensures
        0 <= j / n < n,
        0 <= j % n < n,
        j == (j / n) * n + j % n,
{
    vstd::arithmetic::div_mod::lemma_fundamental_div_mod(j, n);
    vstd::arithmetic::mul::lemma_mul_is_commutative(j / n, n);
    vstd::arithmetic::div_mod::lemma_div_pos_is_pos(j, n);
    if j / n >= n {
        assert((j / n) * n >= n * n) by (nonlinear_arith)
            requires
                j / n >= n,
                n > 0,
        ;
    }
}

/// An `n` by `n` block of cells and the inner coordinates written since the
/// last clear (duplicates allowed).
pub struct GenericChunk<T> {
    size: usize,
    tiles: Vec<T>,
    modified: Vec<[usize; 2]>,
}

impl<T: Tile> GenericChunk<T> {
    /// The chunk's cells, row by row: inner `(x, y)` at `x * size + y`.
    pub closed spec fn cells(&self) -> Seq<T> {
        self.tiles@
    }

    /// Inner coordinates written since the last clear.
    pub closed spec fn modified_seq(&self) -> Seq<[usize; 2]> {
        self.modified@
    }

    pub closed spec fn spec_size(&self) -> usize {
        self.size
    }

    pub closed spec fn wf(&self) -> bool {
        &&& valid_chunk_size(self.size)
        &&& self.tiles@.len() == self.size * self.size
        &&& forall|i: int|
            0 <= i < self.modified@.len() ==> #[trigger] self.modified@[i][0] < self.size
                && self.modified@[i][1] < self.size
    }

    /// The cell at inner coordinate `(x, y)`.
    pub open spec fn cell_at(&self, x: int, y: int) -> T {
        self.cells()[cell_index(x, y, self.spec_size() as int)]
    }

    /// A chunk of `size` by `size` default cells, with nothing modified.
    pub fn empty(size: usize) -> (r: Self)
        requires
            valid_chunk_size(size),
        ensures
            r.wf(),
            r.spec_size() == size,
            r.cells().len() == size * size,
            forall|i: int| 0 <= i < r.cells().len() ==> r.cells()[i] == T::spec_default(),
            r.modified_seq() == Seq::<[usize; 2]>::empty(),
    {
        proof {
            lemma_chunk_area(size);
        }
        let total = size * size;
        let mut tiles: Vec<T> = Vec::new();
        let mut i: usize = 0;
        while i < total
            invariant
                i <= total,
                tiles@.len() == i,
                forall|j: int| 0 <= j < i ==> tiles@[j] == T::spec_default(),
            decreases total - i,
        {
            tiles.push(T::default_tile());
            i = i + 1;
        }
        GenericChunk { size, tiles, modified: Vec::new() }
    }

    pub fn size(&self) -> (r: usize)
        ensures
            r == self.spec_size(),
    {
        self.size
    }

    /// Inner coordinates written since the last clear.
    pub fn modified_tiles(&self) -> (r: &[[usize; 2]])
        ensures
            r@ == self.modified_seq(),
    {
        self.modified.as_slice()
    }

    /// Empties the list of modified inner coordinates; the cells stay.
    pub fn clear_modified(&mut self)
        requires
            old(self).wf(),
        ensures
            final(self).wf(),
            final(self).cells() == old(self).cells(),
            final(self).spec_size() == old(self).spec_size(),
            final(self).modified_seq() == Seq::<[usize; 2]>::empty(),
    {
        self.modified.clear();
    }

    /// Sorts the list of modified inner coordinates and drops repeats.
    pub fn deduplicate_modified(&mut self)
        requires
            old(self).wf(),
        ensures
            final(self).wf(),
            final(self).cells() == old(self).cells(),
            final(self).spec_size() == old(self).spec_size(),
            strictly_sorted_inner(final(self).modified_seq()),
            forall|x: int, y: int| #[trigger]
                has_pair_inner(final(self).modified_seq(), x, y) == has_pair_inner(
                    old(self).modified_seq(),
                    x,
                    y,
                ),
    {
        let ghost m0 = self.modified@;
        let d = sort_dedup_inner(&self.modified);
        self.modified = d;
        proof {
            assert forall|i: int| 0 <= i < self.modified@.len() implies #[trigger] self.modified@[i][0]
                < self.size && self.modified@[i][1] < self.size by {
                let x = self.modified@[i][0] as int;
                let y = self.modified@[i][1] as int;
                assert(has_pair_inner(self.modified@, x, y));
                assert(has_pair_inner(m0, x, y));
                let k = choose|k: int| 0 <= k < m0.len() && #[trigger] m0[k][0] == x && m0[k][1] == y;
            }
        }
    }

    /// The cells, row by row.
    pub fn tiles(&self) -> (r: &Vec<T>)
        ensures
            r@ == self.cells(),
    {
        &self.tiles
    }

    /// The cell at an inner coordinate.
    pub fn get(&self, inner: &[usize; 2]) -> (r: &T)
        requires
            self.wf(),
            inner[0] < self.spec_size(),
            inner[1] < self.spec_size(),
        ensures
            *r == self.cell_at(inner[0] as int, inner[1] as int),
    {
        proof {
            lemma_cell_index(inner[0] as int, inner[1] as int, self.size as int);
            lemma_chunk_area(self.size);
        }
        &self.tiles[inner[0] * self.size + inner[1]]
    }

    /// Every inner coordinate with a reference to its cell, row by row.
    pub fn indexed_tiles(&self) -> (r: Vec<([usize; 2], &T)>)
        requires
            self.wf(),
        ensures
            r@.len() == self.cells().len(),
            r@.len() == self.spec_size() * self.spec_size(),
            forall|i: int|
                0 <= i < r@.len() ==> (#[trigger] r@[i]).0[0] == i / self.spec_size() as int
                    && r@[i].0[1] == i % self.spec_size() as int && *r@[i].1 == self.cells()[i],
    {
        let n = self.size;
        let mut out: Vec<([usize; 2], &T)> = Vec::new();
        let mut x: usize = 0;
        while x < n
            invariant
                self.wf(),
                n == self.size,
                x <= n,
                out@.len() == x * n,
                forall|i: int|
                    0 <= i < out@.len() ==> (#[trigger] out@[i]).0[0] == i / n as int
                        && out@[i].0[1] == i % n as int && *out@[i].1 == self.cells()[i],
            decreases n - x,
        {
            let mut y: usize = 0;
            while y < n
                invariant
                    self.wf(),
                    n == self.size,
                    x < n,
                    y <= n,
                    out@.len() == x * n + y,
                    forall|i: int|
                        0 <= i < out@.len() ==> (#[trigger] out@[i]).0[0] == i / n as int
                            && out@[i].0[1] == i % n as int && *out@[i].1 == self.cells()[i],
                decreases n - y,
            {
                proof {
                    lemma_cell_index(x as int, y as int, n as int);
                    lemma_chunk_area(n);
                }
                out.push(([x, y], &self.tiles[x * n + y]));
                y = y + 1;
            }
            proof {
                assert((x + 1) * n == x * n + n) by (nonlinear_arith);
            }
            x = x + 1;
        }
        out
    }
}

} // verus!

verus! {

/// Packs a chunk coordinate into a map key; one to one on `i32` pairs.
pub open spec fn key_of(cx: int, cy: int) -> int {
    (cx + 0x8000_0000) * 0x1_0000_0000 + (cy + 0x8000_0000)
}

pub open spec fn in_i32(v: int) -> bool {
    i32::MIN <= v <= i32::MAX
}

pub proof fn lemma_key(ax: int, ay: int, bx: int, by: int)
    requires
        in_i32(ax),
        in_i32(ay),
        in_i32(bx),
        in_i32(by),
    ensures
        0 <= key_of(ax, ay) <= u64::MAX,
        key_of(ax, ay) == key_of(bx, by) ==> ax == bx && ay == by,
{
    assert(0 <= key_of(ax, ay) <= u64::MAX) by (nonlinear_arith)
        requires
            in_i32(ax),
            in_i32(ay),
    ;
    if key_of(ax, ay) == key_of(bx, by) {
        vstd::arithmetic::div_mod::lemma_fundamental_div_mod_converse(
            key_of(ax, ay),
            0x1_0000_0000,
            ax + 0x8000_0000,
            ay + 0x8000_0000,
        );
        vstd::arithmetic::div_mod::lemma_fundamental_div_mod_converse(
            key_of(bx, by),
            0x1_0000_0000,
            bx + 0x8000_0000,
            by + 0x8000_0000,
        );
    }
}

fn chunk_key(c: &[i32; 2]) -> (r: u64)
    ensures
        r == key_of(c[0] as int, c[1] as int),
{
    proof {
        lemma_key(c[0] as int, c[1] as int, c[0] as int, c[1] as int);
    }
    let hi = (c[0] as i64 + 0x8000_0000) as u64;
    let lo = (c[1] as i64 + 0x8000_0000) as u64;
    hi * 0x1_0000_0000 + lo
}

/// A chunk coordinate of a point lies in `i32` range.
pub proof fn lemma_chunk_in_range(p: int, n: int)
    requires
        in_i32(p),
        n > 0,
    ensures
        in_i32(chunk_of(p, n)),
        0 <= inner_of(p, n) < n,
{
    super::coord::lemma_div_bounds(p, n);
}

/// An unbounded grid of cells, stored as lazily created chunks.
///
/// Besides the chunks it keeps the list of chunk coordinates that exist, in
/// order of creation, and the chunk coordinates written since the last clear
/// (duplicates allowed).
pub struct GenericTiles<T> {
    chunk_size: usize,
    chunks: HashMap<u64, GenericChunk<T>>,
    chunk_list: Vec<[i32; 2]>,
    modified: Vec<[i32; 2]>,
}

impl<T: Tile> GenericTiles<T> {
    pub closed spec fn spec_chunk_size(&self) -> usize {
        self.chunk_size
    }

    /// The chunks, by packed chunk coordinate.
    pub closed spec fn chunk_map(&self) -> Map<u64, GenericChunk<T>> {
        self.chunks@
    }

    /// The coordinates of the existing chunks, in order of creation.
    pub closed spec fn chunk_list_seq(&self) -> Seq<[i32; 2]> {
        self.chunk_list@
    }

    /// Chunk coordinates written since the last clear.
    pub closed spec fn modified_seq(&self) -> Seq<[i32; 2]> {
        self.modified@
    }

    pub open spec fn list_key(&self, i: int) -> u64 {
        key_of(self.chunk_list_seq()[i][0] as int, self.chunk_list_seq()[i][1] as int) as u64
    }

    pub open spec fn wf(&self) -> bool {
        &&& valid_chunk_size(self.spec_chunk_size())
        &&& forall|k: u64| #[trigger]
            self.chunk_map().contains_key(k) ==> self.chunk_map()[k].wf()
                && self.chunk_map()[k].spec_size() == self.spec_chunk_size()
        &&& forall|i: int|
            0 <= i < self.chunk_list_seq().len() ==> self.chunk_map().contains_key(
                #[trigger] self.list_key(i),
            )
        &&& forall|k: u64| #[trigger]
            self.chunk_map().contains_key(k) ==> exists|i: int|
                0 <= i < self.chunk_list_seq().len() && #[trigger] self.list_key(i) == k
        &&& forall|i: int, j: int|
            0 <= i < j < self.chunk_list_seq().len() ==> #[trigger] self.list_key(i)
                != #[trigger] self.list_key(j)
    }

    /// The chunk at chunk coordinate `(cx, cy)`, if it exists.
    pub open spec fn chunk_at(&self, cx: int, cy: int) -> Option<GenericChunk<T>> {
        let k = key_of(cx, cy) as u64;
        if self.chunk_map().contains_key(k) {
            Some(self.chunk_map()[k])
        } else {
            None
        }
    }

    /// The cell at point `(x, y)`; `None` where its chunk does not exist.
    pub open spec fn cell(&self, x: int, y: int) -> Option<T> {
        let n = self.spec_chunk_size() as int;
        match self.chunk_at(chunk_of(x, n), chunk_of(y, n)) {
            Some(ch) => Some(ch.cell_at(inner_of(x, n), inner_of(y, n))),
            None => None,
        }
    }

    /// Whether points `(x, y)` and `(px, py)` lie in one chunk.
    pub open spec fn same_chunk(&self, x: int, y: int, px: int, py: int) -> bool {
        let n = self.spec_chunk_size() as int;
        chunk_of(x, n) == chunk_of(px, n) && chunk_of(y, n) == chunk_of(py, n)
    }

    /// The cell at `(x, y)` once the chunk of `(px, py)` is sure to exist.
    pub open spec fn cell_after_create(&self, px: int, py: int, x: int, y: int) -> Option<T> {
        if self.cell(x, y) is None && self.same_chunk(x, y, px, py) {
            Some(T::spec_default())
        } else {
            self.cell(x, y)
        }
    }

    /// The modified list of the chunk at `(cx, cy)`; empty where it does not exist.
    pub open spec fn chunk_modified(&self, cx: int, cy: int) -> Seq<[usize; 2]> {
        match self.chunk_at(cx, cy) {
            Some(ch) => ch.modified_seq(),
            None => Seq::empty(),
        }
    }

    /// `self` is `before` once point `(x, y)` was written with `v`: its
    /// chunk exists (other cells of a new chunk hold the default), no other
    /// cell changed, and the point's chunk coordinate was appended to the
    /// modified list.
    pub open spec fn written_from(&self, before: Self, x: int, y: int, v: T) -> bool {
        let n = before.spec_chunk_size() as int;
        &&& self.wf()
        &&& self.spec_chunk_size() == before.spec_chunk_size()
        &&& self.cell(x, y) == Some(v)
        &&& forall|a: int, b: int|
            in_i32(a) && in_i32(b) && !(a == x && b == y) ==> #[trigger] self.cell(a, b)
                == before.cell_after_create(x, y, a, b)
        &&& self.modified_seq().len() == before.modified_seq().len() + 1
        &&& self.modified_seq().drop_last() == before.modified_seq()
        &&& self.modified_seq().last()[0] == chunk_of(x, n)
        &&& self.modified_seq().last()[1] == chunk_of(y, n)
        &&& self.recorded_from(before, x, y)
    }

    /// `self` is `before` once point `(x, y)` was recorded in its chunk:
    /// the inner coordinate was appended to that chunk's modified list (an
    /// empty list for a new chunk), no other chunk's list changed, and a new
    /// chunk was appended to the list of chunks.
    pub open spec fn recorded_from(&self, before: Self, x: int, y: int) -> bool {
        let n = before.spec_chunk_size() as int;
        let cx = chunk_of(x, n);
        let cy = chunk_of(y, n);
        &&& self.chunk_modified(cx, cy).len() == before.chunk_modified(cx, cy).len() + 1
        &&& self.chunk_modified(cx, cy).drop_last() == before.chunk_modified(cx, cy)
        &&& self.chunk_modified(cx, cy).last()[0] == inner_of(x, n)
        &&& self.chunk_modified(cx, cy).last()[1] == inner_of(y, n)
        &&& forall|a: int, b: int|
            in_i32(a) && in_i32(b) && !(a == cx && b == cy) ==> #[trigger] self.chunk_modified(a, b)
                == before.chunk_modified(a, b)
        &&& before.chunk_at(cx, cy) is Some ==> self.chunk_list_seq() == before.chunk_list_seq()
        &&& before.chunk_at(cx, cy) is None ==> {
            &&& self.chunk_list_seq().len() == before.chunk_list_seq().len() + 1
            &&& self.chunk_list_seq().drop_last() == before.chunk_list_seq()
            &&& self.chunk_list_seq().last()[0] == cx
            &&& self.chunk_list_seq().last()[1] == cy
        }
    }

    /// `self` is `before` once its dirty tracking was cleared: the grid's
    /// modified list is empty, so is the list of each chunk named in it, and
    /// no cell changed.
    pub open spec fn cleared_from(&self, before: Self) -> bool {
        &&& self.wf()
        &&& self.spec_chunk_size() == before.spec_chunk_size()
        &&& self.modified_seq() == Seq::<[i32; 2]>::empty()
        &&& self.chunk_list_seq() == before.chunk_list_seq()
        &&& forall|x: int, y: int| #[trigger] self.cell(x, y) == before.cell(x, y)
        &&& forall|i: int|
            0 <= i < before.modified_seq().len() ==> (#[trigger] self.chunk_modified(
                before.modified_seq()[i][0] as int,
                before.modified_seq()[i][1] as int,
            )) == Seq::<[usize; 2]>::empty()
        &&& forall|a: int, b: int|
            in_i32(a) && in_i32(b) && !has_pair_points(before.modified_seq(), a, b) ==> #[trigger]
                self.chunk_modified(a, b) == before.chunk_modified(a, b)
    }

    /// An empty grid with chunks of `chunk_size` by `chunk_size` cells.
    pub fn new(chunk_size: usize) -> (r: Self)
        requires
            valid_chunk_size(chunk_size),
        ensures
            r.wf(),
            r.spec_chunk_size() == chunk_size,
            r.chunk_map() == Map::<u64, GenericChunk<T>>::empty(),
            r.chunk_list_seq() == Seq::<[i32; 2]>::empty(),
            r.modified_seq() == Seq::<[i32; 2]>::empty(),
            forall|x: int, y: int| #[trigger] r.cell(x, y) is None,
    {
        GenericTiles {
            chunk_size,
            chunks: HashMap::new(),
            chunk_list: Vec::new(),
            modified: Vec::new(),
        }
    }

    pub fn chunk_size(&self) -> (r: usize)
        ensures
            r == self.spec_chunk_size(),
    {
        self.chunk_size
    }

    /// The cell at `point`, or `None` where its chunk does not exist.
    pub fn get(&self, point: &[i32; 2]) -> (r: Option<&T>)
        requires
            self.wf(),
        ensures
            match r {
                Some(t) => self.cell(point[0] as int, point[1] as int) == Some(*t),
                None => self.cell(point[0] as int, point[1] as int) is None,
            },
    {
        let n = self.chunk_size;
        let chunk_coord = chunk_coord_of(n, point);
        let inner_coord = inner_coord_of(n, point);
        let k = chunk_key(&chunk_coord);
        match self.chunks.get(&k) {
            Some(chunk) => Some(chunk.get(&inner_coord)),
            None => None,
        }
    }

    /// Records `point` as modified, creating its chunk where it does not
    /// exist, and writes `tile` there if one is given.
    fn touch(&mut self, point: &[i32; 2], tile: Option<T>)
        requires
            old(self).wf(),
        ensures
            final(self).written_from(
                *old(self),
                point[0] as int,
                point[1] as int,
                match tile {
                    Some(t) => t,
                    None => match old(self).cell(point[0] as int, point[1] as int) {
                        Some(t) => t,
                        None => T::spec_default(),
                    },
                },
            ),
    {
        let n = self.chunk_size;
        let chunk_coord = chunk_coord_of(n, point);
        let inner_coord = inner_coord_of(n, point);
        let k = chunk_key(&chunk_coord);
        let ghost g0 = *self;
        proof {
            lemma_cell_index(inner_coord[0] as int, inner_coord[1] as int, n as int);
            lemma_chunk_area(n);
        }
        let idx = inner_coord[0] * n + inner_coord[1];
        self.modified.push(chunk_coord);
        match self.chunks.entry(k) {
            Entry::Occupied(o) => {
                let chunk = o.into_mut();
                proof {
                    assert(g0.chunk_map().contains_key(k));
                }
                chunk.modified.push(inner_coord);
                match tile {
                    Some(t) => {
                        chunk.tiles[idx] = t;
                    },
                    None => {},
                }
                proof {
                    assert(chunk.modified@ == g0.chunks@[k].modified@.push(inner_coord));
                    assert(forall|i: int|
                        0 <= i < chunk.modified@.len() - 1 ==> chunk.modified@[i]
                            == g0.chunks@[k].modified@[i]);
                    assert(chunk.wf());
                }
            },
            Entry::Vacant(v) => {
                self.chunk_list.push(chunk_coord);
                let mut chunk = GenericChunk::empty(n);
                chunk.modified.push(inner_coord);
                match tile {
                    Some(t) => {
                        chunk.tiles[idx] = t;
                    },
                    None => {},
                }
                proof {
                    assert(chunk.wf());
                    assert(chunk.modified@ == Seq::<[usize; 2]>::empty().push(inner_coord));
                }
                v.insert(chunk);
            },
        }
        proof {
            assert(self.chunks@.contains_key(k));
            assert(self.chunks@ == g0.chunks@.insert(k, self.chunks@[k]));
            let c1 = self.chunks@[k];
            let cx = chunk_coord[0] as int;
            let cy = chunk_coord[1] as int;
            let ix = inner_coord[0] as int;
            let iy = inner_coord[1] as int;
            let px = point[0] as int;
            let py = point[1] as int;
            assert(c1.wf());
            // the list of chunks
            if !g0.chunks@.contains_key(k) {
                assert(self.chunk_list@ == g0.chunk_list@.push(chunk_coord));
                assert(self.list_key(g0.chunk_list@.len() as int) == k);
                assert forall|i: int| 0 <= i < g0.chunk_list@.len() implies self.list_key(i)
                    == g0.list_key(i) && g0.chunks@.contains_key(#[trigger] self.list_key(i)) by {
                    assert(self.chunk_list@[i] == g0.chunk_list@[i]);
                    assert(g0.chunk_map().contains_key(g0.list_key(i)));
                }
                assert forall|kk: u64| #[trigger]
                    self.chunk_map().contains_key(kk) implies exists|i: int|
                        0 <= i < self.chunk_list_seq().len() && #[trigger] self.list_key(i)
                            == kk by {
                    if kk != k {
                        assert(g0.chunk_map().contains_key(kk));
                        let i = choose|i: int|
                            0 <= i < g0.chunk_list_seq().len() && #[trigger] g0.list_key(i) == kk;
                        assert(self.list_key(i) == kk);
                    }
                }
                assert forall|i: int, j: int|
                    0 <= i < j < self.chunk_list_seq().len() implies #[trigger] self.list_key(i)
                    != #[trigger] self.list_key(j) by {
                    if j == g0.chunk_list@.len() {
                        assert(g0.chunks@.contains_key(g0.list_key(i)));
                    } else {
                        assert(g0.list_key(i) != g0.list_key(j));
                    }
                }
            } else {
                assert(self.chunk_list@ == g0.chunk_list@);
                assert forall|i: int| 0 <= i < self.chunk_list_seq().len() implies self.list_key(i)
                    == g0.list_key(i) && self.chunk_map().contains_key(
                    #[trigger] self.list_key(i),
                ) by {
                    assert(g0.chunk_map().contains_key(g0.list_key(i)));
                }
                assert forall|kk: u64| #[trigger]
                    self.chunk_map().contains_key(kk) implies exists|i: int|
                        0 <= i < self.chunk_list_seq().len() && #[trigger] self.list_key(i)
                            == kk by {
                    assert(g0.chunk_map().contains_key(kk));
                    let i = choose|i: int|
                        0 <= i < g0.chunk_list_seq().len() && #[trigger] g0.list_key(i) == kk;
                    assert(self.list_key(i) == kk);
                }
            }
            assert(self.modified@.drop_last() == g0.modified@);
            assert(valid_chunk_size(self.spec_chunk_size()));
            assert forall|kk: u64| #[trigger]
                self.chunk_map().contains_key(kk) implies self.chunk_map()[kk].wf()
                && self.chunk_map()[kk].spec_size() == self.spec_chunk_size() by {
                if kk != k {
                    assert(g0.chunk_map().contains_key(kk));
                }
            }
            assert(forall|i: int|
                0 <= i < self.chunk_list_seq().len() ==> self.chunk_map().contains_key(
                    #[trigger] self.list_key(i),
                ));
            assert(forall|kk: u64| #[trigger]
                self.chunk_map().contains_key(kk) ==> exists|i: int|
                    0 <= i < self.chunk_list_seq().len() && #[trigger] self.list_key(i) == kk);
            assert(self.wf());
            // the chunk-level records
            assert forall|a: int, b: int|
                in_i32(a) && in_i32(b) && !(a == cx && b == cy) implies #[trigger] self.chunk_modified(a, b)
                == g0.chunk_modified(a, b) by {
                lemma_key(a, b, cx, cy);
            }
            if !g0.chunks@.contains_key(k) {
                assert(self.chunk_list_seq().drop_last() == g0.chunk_list_seq());
            }
            assert(self.chunk_modified(cx, cy) == g0.chunk_modified(cx, cy).push(inner_coord));
            assert(self.chunk_modified(cx, cy).drop_last() == g0.chunk_modified(cx, cy));
            assert(self.recorded_from(g0, px, py));
            // the cells
            assert forall|x: int, y: int|
                in_i32(x) && in_i32(y) && !(x == px && y == py) implies #[trigger] self.cell(x, y)
                == g0.cell_after_create(px, py, x, y) by {
                let nn = n as int;
                lemma_chunk_in_range(x, nn);
                lemma_chunk_in_range(y, nn);
                lemma_key(chunk_of(x, nn), chunk_of(y, nn), cx, cy);
                if g0.same_chunk(x, y, px, py) {
                    lemma_cell_index(inner_of(x, nn), inner_of(y, nn), nn);
                    lemma_split_combine(x, nn);
                    lemma_split_combine(y, nn);
                    lemma_split_combine(px, nn);
                    lemma_split_combine(py, nn);
                    assert(cell_index(inner_of(x, nn), inner_of(y, nn), nn) != cell_index(
                        ix,
                        iy,
                        nn,
                    ));
                }
            }
        }
    }

    /// The chunk at `chunk_coord`, created filled with default cells where it
    /// does not exist. The chunk coordinate is recorded as modified.
    pub fn get_chunk_or_create(&mut self, chunk_coord: &[i32; 2]) -> (r: &GenericChunk<T>)
        requires
            old(self).wf(),
        ensures
            final(self).wf(),
            final(self).spec_chunk_size() == old(self).spec_chunk_size(),
            final(self).chunk_at(chunk_coord[0] as int, chunk_coord[1] as int) == Some(*r),
            old(self).chunk_at(chunk_coord[0] as int, chunk_coord[1] as int) is Some ==> Some(*r)
                == old(self).chunk_at(chunk_coord[0] as int, chunk_coord[1] as int)
                && final(self).chunk_map() == old(self).chunk_map(),
            old(self).chunk_at(chunk_coord[0] as int, chunk_coord[1] as int) is None ==> {
                &&& r.modified_seq() == Seq::<[usize; 2]>::empty()
                &&& r.cells().len() == old(self).spec_chunk_size() * old(self).spec_chunk_size()
                &&& forall|i: int| 0 <= i < r.cells().len() ==> #[trigger] r.cells()[i] == T::spec_default()
                &&& final(self).chunk_map() == old(self).chunk_map().insert(
                    key_of(chunk_coord[0] as int, chunk_coord[1] as int) as u64,
                    *r,
                )
            },
            final(self).modified_seq() == old(self).modified_seq().push(*chunk_coord),
    {
        let n = self.chunk_size;
        let k = chunk_key(chunk_coord);
        let ghost g0 = *self;
        self.modified.push(*chunk_coord);
        if !self.chunks.contains_key(&k) {
            self.chunk_list.push(*chunk_coord);
            let chunk = GenericChunk::empty(n);
            self.chunks.insert(k, chunk);
            proof {
                assert(self.list_key(g0.chunk_list@.len() as int) == k);
                assert forall|i: int| 0 <= i < g0.chunk_list@.len() implies self.list_key(i)
                    == g0.list_key(i) && g0.chunks@.contains_key(#[trigger] self.list_key(i)) by {
                    assert(self.chunk_list@[i] == g0.chunk_list@[i]);
                    assert(g0.chunk_map().contains_key(g0.list_key(i)));
                }
                assert forall|kk: u64| #[trigger]
                    self.chunk_map().contains_key(kk) implies exists|i: int|
                        0 <= i < self.chunk_list_seq().len() && #[trigger] self.list_key(i)
                            == kk by {
                    if kk != k {
                        assert(g0.chunk_map().contains_key(kk));
                        let i = choose|i: int|
                            0 <= i < g0.chunk_list_seq().len() && #[trigger] g0.list_key(i) == kk;
                        assert(self.list_key(i) == kk);
                    }
                }
                assert forall|i: int, j: int|
                    0 <= i < j < self.chunk_list_seq().len() implies #[trigger] self.list_key(i)
                    != #[trigger] self.list_key(j) by {
                    if j == g0.chunk_list@.len() {
                        assert(g0.chunks@.contains_key(g0.list_key(i)));
                    } else {
                        assert(g0.list_key(i) != g0.list_key(j));
                    }
                }
                assert forall|kk: u64| #[trigger]
                    self.chunk_map().contains_key(kk) implies self.chunk_map()[kk].wf()
                    && self.chunk_map()[kk].spec_size() == self.spec_chunk_size() by {
                    if kk != k {
                        assert(g0.chunk_map().contains_key(kk));
                    }
                }
            }
        } else {
            proof {
                assert forall|kk: u64| #[trigger]
                    self.chunk_map().contains_key(kk) implies exists|i: int|
                        0 <= i < self.chunk_list_seq().len() && #[trigger] self.list_key(i)
                            == kk by {
                    let i = choose|i: int|
                        0 <= i < g0.chunk_list_seq().len() && #[trigger] g0.list_key(i) == kk;
                    assert(self.list_key(i) == kk);
                }
                assert forall|i: int, j: int|
                    0 <= i < j < self.chunk_list_seq().len() implies #[trigger] self.list_key(i)
                    != #[trigger] self.list_key(j) by {
                    assert(g0.list_key(i) != g0.list_key(j));
                }
                assert forall|m: int| 0 <= m < self.chunk_list_seq().len() implies self.chunk_map().contains_key(
                    #[trigger] self.list_key(m),
                ) by {
                    assert(g0.chunk_map().contains_key(g0.list_key(m)));
                }
            }
        }
        self.chunks.get(&k).unwrap()
    }

    /// Writes `tile` at `point`, creating its chunk where it does not exist;
    /// the point's chunk and inner coordinates are recorded as modified.
    pub fn set(&mut self, point: &[i32; 2], tile: T)
        requires
            old(self).wf(),
        ensures
            final(self).written_from(*old(self), point[0] as int, point[1] as int, tile),
    {
        self.touch(point, Some(tile));
    }

    /// `fin` is `mid` with only the cell at `(x, y)` replaced by `v`.
    pub open spec fn cell_replaced(&self, mid: Self, x: int, y: int, v: T) -> bool {
        let n = mid.spec_chunk_size() as int;
        let k = key_of(chunk_of(x, n), chunk_of(y, n)) as u64;
        let idx = cell_index(inner_of(x, n), inner_of(y, n), n);
        &&& self.spec_chunk_size() == mid.spec_chunk_size()
        &&& self.chunk_list_seq() == mid.chunk_list_seq()
        &&& self.modified_seq() == mid.modified_seq()
        &&& self.chunk_map() == mid.chunk_map().insert(k, self.chunk_map()[k])
        &&& self.chunk_map()[k].spec_size() == mid.chunk_map()[k].spec_size()
        &&& self.chunk_map()[k].modified_seq() == mid.chunk_map()[k].modified_seq()
        &&& self.chunk_map()[k].cells() == mid.chunk_map()[k].cells().update(idx, v)
    }

    /// The cell at `point`, for writing; its chunk is created, filled with
    /// default cells, where it does not exist. The point is recorded as
    /// modified whether or not the caller changes it.
    pub fn get_or_create(&mut self, point: &[i32; 2]) -> (r: &mut T)
        requires
            old(self).wf(),
        ensures
            *r == (match old(self).cell(point[0] as int, point[1] as int) {
                Some(t) => t,
                None => T::spec_default(),
            }),
            final(self).written_from(*old(self), point[0] as int, point[1] as int, *final(r)),
    {
        self.touch(point, None);
        let ghost mid = *self;
        let ghost g0 = *old(self);
        let ghost x = point[0] as int;
        let ghost y = point[1] as int;
        let n = self.chunk_size;
        let chunk_coord = chunk_coord_of(n, point);
        let inner_coord = inner_coord_of(n, point);
        let k = chunk_key(&chunk_coord);
        proof {
            lemma_cell_index(inner_coord[0] as int, inner_coord[1] as int, n as int);
            lemma_chunk_area(n);
            assert(mid.chunk_map().contains_key(k));
            assert forall|fin: Self, v: T| fin.cell_replaced(mid, x, y, v) implies #[trigger] fin.written_from(g0, x, y, v) by {
                lemma_cell_replaced(g0, mid, fin, x, y, v);
            }
        }
        let idx = inner_coord[0] * n + inner_coord[1];
        match self.chunks.entry(k) {
            Entry::Occupied(o) => {
                let chunk = o.into_mut();
                &mut chunk.tiles[idx]
            },
            Entry::Vacant(v) => {
                proof {
                    assert(false);
                }
                let chunk = v.insert(GenericChunk::empty(n));
                &mut chunk.tiles[idx]
            },
        }
    }

    /// The cell at `point`, for writing, where its chunk exists; the point is
    /// then recorded as modified. `None`, with nothing changed, where the
    /// chunk does not exist.
    pub fn get_mut(&mut self, point: &[i32; 2]) -> (r: Option<&mut T>)
        requires
            old(self).wf(),
        ensures
            old(self).cell(point[0] as int, point[1] as int) is None ==> r is None && *final(self)
                == *old(self),
            old(self).cell(point[0] as int, point[1] as int) is Some ==> r is Some,
            match r {
                Some(t) => *t == old(self).cell(point[0] as int, point[1] as int).unwrap()
                    && final(self).written_from(*old(self), point[0] as int, point[1] as int, *final(t)),
                None => true,
            },
    {
        let n = self.chunk_size;
        let chunk_coord = chunk_coord_of(n, point);
        let k = chunk_key(&chunk_coord);
        if self.chunks.contains_key(&k) {
            Some(self.get_or_create(point))
        } else {
            None
        }
    }

    /// Drops every chunk and all dirty tracking.
    pub fn clear(&mut self)
        requires
            old(self).wf(),
        ensures
            final(self).wf(),
            final(self).spec_chunk_size() == old(self).spec_chunk_size(),
            final(self).chunk_map() == Map::<u64, GenericChunk<T>>::empty(),
            final(self).chunk_list_seq() == Seq::<[i32; 2]>::empty(),
            final(self).modified_seq() == Seq::<[i32; 2]>::empty(),
            forall|x: int, y: int| #[trigger] final(self).cell(x, y) is None,
    {
        self.chunks.clear();
        self.chunk_list.clear();
        self.modified.clear();
        proof {
            assert(self.chunks@ == Map::<u64, GenericChunk<T>>::empty());
        }
    }

    /// Chunk coordinates written since the last clear.
    pub fn modified_chunks(&self) -> (r: &[[i32; 2]])
        ensures
            r@ == self.modified_seq(),
    {
        self.modified.as_slice()
    }

    /// The chunk at a chunk coordinate, if it exists.
    pub fn chunk(&self, chunk_coord: &[i32; 2]) -> (r: Option<&GenericChunk<T>>)
        requires
            self.wf(),
        ensures
            match r {
                Some(ch) => self.chunk_at(chunk_coord[0] as int, chunk_coord[1] as int) == Some(
                    *ch,
                ),
                None => self.chunk_at(chunk_coord[0] as int, chunk_coord[1] as int) is None,
            },
    {
        let k = chunk_key(chunk_coord);
        self.chunks.get(&k)
    }

    /// Every existing chunk with its coordinate, in order of creation.
    pub fn indexed_chunks(&self) -> (r: Vec<([i32; 2], &GenericChunk<T>)>)
        requires
            self.wf(),
        ensures
            r@.len() == self.chunk_list_seq().len(),
            forall|i: int|
                0 <= i < r@.len() ==> (#[trigger] r@[i]).0 == self.chunk_list_seq()[i]
                    && self.chunk_map().contains_key(self.list_key(i)) && *r@[i].1
                    == self.chunk_map()[self.list_key(i)],
            forall|k: u64| #[trigger]
                self.chunk_map().contains_key(k) ==> exists|i: int|
                    0 <= i < r@.len() && #[trigger] self.list_key(i) == k,
    {
        let mut out: Vec<([i32; 2], &GenericChunk<T>)> = Vec::new();
        let mut i: usize = 0;
        while i < self.chunk_list.len()
            invariant
                self.wf(),
                i <= self.chunk_list@.len(),
                out@.len() == i,
                forall|j: int|
                    0 <= j < i ==> (#[trigger] out@[j]).0 == self.chunk_list_seq()[j]
                        && self.chunk_map().contains_key(self.list_key(j)) && *out@[j].1
                        == self.chunk_map()[self.list_key(j)],
            decreases self.chunk_list@.len() - i,
        {
            let c = self.chunk_list[i];
            let k = chunk_key(&c);
            proof {
                assert(self.chunk_map().contains_key(self.list_key(i as int)));
            }
            let ch = self.chunks.get(&k).unwrap();
            out.push((c, ch));
            i = i + 1;
        }
        out
    }

    /// Empties the modified list of every chunk named in the grid's modified
    /// list, then the grid's own list. No cell changes.
    pub fn clear_modified(&mut self)
        requires
            old(self).wf(),
        ensures
            final(self).cleared_from(*old(self)),
    {
        let ghost g0 = *self;
        let mut i: usize = 0;
        while i < self.modified.len()
            invariant
                self.wf(),
                self.chunk_size == g0.chunk_size,
                self.modified@ == g0.modified@,
                self.chunk_list@ == g0.chunk_list@,
                i <= self.modified@.len(),
                self.chunks@.dom() == g0.chunks@.dom(),
                forall|k: u64| #[trigger]
                    self.chunks@.contains_key(k) ==> self.chunks@[k].cells()
                        == g0.chunks@[k].cells(),
                forall|j: int|
                    0 <= j < i ==> (#[trigger] self.chunk_modified(
                        g0.modified@[j][0] as int,
                        g0.modified@[j][1] as int,
                    )) == Seq::<[usize; 2]>::empty(),
                forall|a: int, b: int|
                    in_i32(a) && in_i32(b) && (forall|m: int|
                        0 <= m < i ==> !(g0.modified@[m][0] == a && g0.modified@[m][1] == b))
                        ==> #[trigger] self.chunk_modified(a, b) == g0.chunk_modified(a, b),
            decreases self.modified@.len() - i,
        {
            let c = self.modified[i];
            let k = chunk_key(&c);
            let ghost s0 = *self;
            match self.chunks.entry(k) {
                Entry::Occupied(o) => {
                    proof {
                        assert(s0.chunk_map().contains_key(k));
                    }
                    let chunk = o.into_mut();
                    chunk.clear_modified();
                    proof {
                        assert(chunk.wf());
                        assert(chunk.spec_size() == g0.chunk_size);
                    }
                },
                Entry::Vacant(_) => {},
            }
            proof {
                if s0.chunks@.contains_key(k) {
                    assert(self.chunks@ == s0.chunks@.insert(k, self.chunks@[k]));
                } else {
                    assert(self.chunks@ == s0.chunks@);
                }
                assert(self.chunks@.dom() =~= g0.chunks@.dom());
                assert forall|j: int| 0 <= j <= i implies (#[trigger] self.chunk_modified(
                    g0.modified@[j][0] as int,
                    g0.modified@[j][1] as int,
                )) == Seq::<[usize; 2]>::empty() by {
                    if j < i {
                        assert(s0.chunk_modified(
                            g0.modified@[j][0] as int,
                            g0.modified@[j][1] as int,
                        ) == Seq::<[usize; 2]>::empty());
                    }
                }
                assert forall|a: int, b: int|
                    in_i32(a) && in_i32(b) && (forall|m: int|
                        0 <= m < i + 1 ==> !(g0.modified@[m][0] == a && g0.modified@[m][1] == b))
                        implies #[trigger] self.chunk_modified(a, b) == g0.chunk_modified(a, b) by {
                    assert(!(g0.modified@[i as int][0] == a && g0.modified@[i as int][1] == b));
                    lemma_key(a, b, c[0] as int, c[1] as int);
                    assert(s0.chunk_modified(a, b) == g0.chunk_modified(a, b));
                }
                assert forall|kk: u64| #[trigger]
                    self.chunk_map().contains_key(kk) implies self.chunk_map()[kk].wf()
                    && self.chunk_map()[kk].spec_size() == self.spec_chunk_size() by {
                    assert(s0.chunk_map().contains_key(kk));
                }
                assert(self.chunk_map().dom() =~= s0.chunk_map().dom());
                lemma_wf_same_shape(s0, *self);
                assert(self.chunk_list_seq() == s0.chunk_list_seq());
                assert(self.spec_chunk_size() == s0.spec_chunk_size());
                assert(self.wf());
            }
            i = i + 1;
        }
        let ghost s1 = *self;
        self.modified = Vec::new();
        proof {
            assert(s1.wf());
            assert(self.chunk_size == s1.chunk_size);
            assert(self.chunks@ == s1.chunks@);
            assert(self.chunk_list@ == s1.chunk_list@);
            assert(forall|k: u64| #[trigger] self.chunk_map().contains_key(k) ==> s1.chunk_map().contains_key(k));
            assert forall|a: int, b: int|
                in_i32(a) && in_i32(b) && !has_pair_points(g0.modified@, a, b) implies #[trigger]
                self.chunk_modified(a, b) == g0.chunk_modified(a, b) by {
                assert forall|m: int| 0 <= m < g0.modified@.len() implies !(g0.modified@[m][0] == a
                    && g0.modified@[m][1] == b) by {
                    if g0.modified@[m][0] == a && g0.modified@[m][1] == b {
                        assert(has_pair_points(g0.modified@, a, b));
                    }
                }
                assert(s1.chunk_modified(a, b) == g0.chunk_modified(a, b));
            }
            assert(self.chunk_map().dom() =~= s1.chunk_map().dom());
            lemma_wf_same_shape(s1, *self);
            assert(self.wf());
            assert forall|j: int| 0 <= j < g0.modified@.len() implies (#[trigger] self.chunk_modified(
                g0.modified@[j][0] as int,
                g0.modified@[j][1] as int,
            )) == Seq::<[usize; 2]>::empty() by {
                assert(s1.chunk_modified(g0.modified@[j][0] as int, g0.modified@[j][1] as int)
                    == Seq::<[usize; 2]>::empty());
            }
            assert forall|x: int, y: int| #[trigger] self.cell(x, y) == g0.cell(x, y) by {
                let n = self.chunk_size as int;
                let kk = key_of(chunk_of(x, n), chunk_of(y, n)) as u64;
                if self.chunks@.contains_key(kk) {
                    assert(g0.chunks@.contains_key(kk));
                    assert(self.chunks@[kk].cells() == g0.chunks@[kk].cells());
                    assert(self.chunks@[kk].spec_size() == g0.chunks@[kk].spec_size());
                }
            }
        }
    }

    /// Sorts the grid's list of modified chunk coordinates and drops
    /// repeats; then does the same to the list of each chunk named there.
    /// No cell changes.
    pub fn deduplicate_modified(&mut self)
        requires
            old(self).wf(),
        ensures
            final(self).wf(),
            final(self).spec_chunk_size() == old(self).spec_chunk_size(),
            final(self).chunk_list_seq() == old(self).chunk_list_seq(),
            forall|x: int, y: int| #[trigger] final(self).cell(x, y) == old(self).cell(x, y),
            strictly_sorted_points(final(self).modified_seq()),
            forall|x: int, y: int| #[trigger]
                has_pair_points(final(self).modified_seq(), x, y) == has_pair_points(
                    old(self).modified_seq(),
                    x,
                    y,
                ),
            forall|i: int|
                0 <= i < final(self).modified_seq().len() ==> strictly_sorted_inner(
                    #[trigger] final(self).chunk_modified(
                        final(self).modified_seq()[i][0] as int,
                        final(self).modified_seq()[i][1] as int,
                    ),
                ),
            forall|a: int, b: int, x: int, y: int|
                in_i32(a) && in_i32(b) ==> #[trigger] has_pair_inner(
                    final(self).chunk_modified(a, b),
                    x,
                    y,
                ) == has_pair_inner(old(self).chunk_modified(a, b), x, y),
            forall|a: int, b: int|
                in_i32(a) && in_i32(b) && !has_pair_points(old(self).modified_seq(), a, b)
                    ==> #[trigger] final(self).chunk_modified(a, b) == old(self).chunk_modified(a, b),
    {
        let ghost g0 = *self;
        let d = sort_dedup_points(&self.modified);
        self.modified = d;
        let ghost g1 = *self;
        proof {
            assert(self.chunks@ == g0.chunks@);
            assert forall|kk: u64| #[trigger]
                self.chunk_map().contains_key(kk) implies self.chunk_map()[kk].wf()
                && self.chunk_map()[kk].spec_size() == self.spec_chunk_size() by {
                assert(g0.chunk_map().contains_key(kk));
            }
            assert(self.chunk_map().dom() =~= g0.chunk_map().dom());
            lemma_wf_same_shape(g0, *self);
        }
        let mut i: usize = 0;
        while i < self.modified.len()
            invariant
                self.wf(),
                self.chunk_size == g0.chunk_size,
                self.modified@ == g1.modified@,
                self.chunk_list@ == g0.chunk_list@,
                i <= self.modified@.len(),
                self.chunks@.dom() == g0.chunks@.dom(),
                forall|k: u64| #[trigger]
                    self.chunks@.contains_key(k) ==> self.chunks@[k].cells()
                        == g0.chunks@[k].cells(),
                forall|j: int|
                    0 <= j < i ==> strictly_sorted_inner(#[trigger] self.chunk_modified(
                        g1.modified@[j][0] as int,
                        g1.modified@[j][1] as int,
                    )),
                forall|a: int, b: int, x: int, y: int|
                    in_i32(a) && in_i32(b) ==> #[trigger] has_pair_inner(self.chunk_modified(a, b), x, y)
                        == has_pair_inner(g0.chunk_modified(a, b), x, y),
                forall|a: int, b: int|
                    in_i32(a) && in_i32(b) && (forall|m: int|
                        0 <= m < i ==> !(g1.modified@[m][0] == a && g1.modified@[m][1] == b))
                        ==> #[trigger] self.chunk_modified(a, b) == g0.chunk_modified(a, b),
            decreases self.modified@.len() - i,
        {
            let c = self.modified[i];
            let k = chunk_key(&c);
            let ghost s0 = *self;
            match self.chunks.entry(k) {
                Entry::Occupied(o) => {
                    proof {
                        assert(s0.chunk_map().contains_key(k));
                    }
                    let chunk = o.into_mut();
                    chunk.deduplicate_modified();
                },
                Entry::Vacant(_) => {},
            }
            proof {
                if s0.chunks@.contains_key(k) {
                    assert(self.chunks@ == s0.chunks@.insert(k, self.chunks@[k]));
                } else {
                    assert(self.chunks@ == s0.chunks@);
                }
                assert(self.chunks@.dom() =~= g0.chunks@.dom());
                assert forall|j: int| 0 <= j <= i implies strictly_sorted_inner(#[trigger] self.chunk_modified(
                    g1.modified@[j][0] as int,
                    g1.modified@[j][1] as int,
                )) by {
                    let kj = key_of(g1.modified@[j][0] as int, g1.modified@[j][1] as int) as u64;
                    if j < i && kj != k {
                        assert(strictly_sorted_inner(s0.chunk_modified(
                            g1.modified@[j][0] as int,
                            g1.modified@[j][1] as int,
                        )));
                    }
                    if j == i {
                        assert(kj == k);
                    }
                }
                assert forall|a: int, b: int|
                    in_i32(a) && in_i32(b) && (forall|m: int|
                        0 <= m < i + 1 ==> !(g1.modified@[m][0] == a && g1.modified@[m][1] == b))
                        implies #[trigger] self.chunk_modified(a, b) == g0.chunk_modified(a, b) by {
                    assert(!(g1.modified@[i as int][0] == a && g1.modified@[i as int][1] == b));
                    lemma_key(a, b, c[0] as int, c[1] as int);
                    assert(s0.chunk_modified(a, b) == g0.chunk_modified(a, b));
                }
                assert forall|a: int, b: int, x: int, y: int|
                    in_i32(a) && in_i32(b) implies #[trigger] has_pair_inner(self.chunk_modified(a, b), x, y)
                        == has_pair_inner(g0.chunk_modified(a, b), x, y) by {
                    lemma_key(a, b, c[0] as int, c[1] as int);
                    assert(has_pair_inner(s0.chunk_modified(a, b), x, y)
                        == has_pair_inner(g0.chunk_modified(a, b), x, y));
                }
                assert forall|kk: u64| #[trigger]
                    self.chunk_map().contains_key(kk) implies self.chunk_map()[kk].wf()
                    && self.chunk_map()[kk].spec_size() == self.spec_chunk_size() by {
                    assert(s0.chunk_map().contains_key(kk));
                }
                assert(self.chunk_map().dom() =~= s0.chunk_map().dom());
                lemma_wf_same_shape(s0, *self);
            }
            i = i + 1;
        }
        proof {
            assert forall|a: int, b: int|
                in_i32(a) && in_i32(b) && !has_pair_points(g0.modified@, a, b) implies #[trigger]
                self.chunk_modified(a, b) == g0.chunk_modified(a, b) by {
                assert forall|m: int| 0 <= m < g1.modified@.len() implies !(g1.modified@[m][0] == a
                    && g1.modified@[m][1] == b) by {
                    if g1.modified@[m][0] == a && g1.modified@[m][1] == b {
                        assert(has_pair_points(g1.modified@, a, b));
                    }
                }
            }
        }
        proof {
            assert forall|x: int, y: int| #[trigger] self.cell(x, y) == g0.cell(x, y) by {
                let n = self.chunk_size as int;
                let kk = key_of(chunk_of(x, n), chunk_of(y, n)) as u64;
                if self.chunks@.contains_key(kk) {
                    assert(g0.chunks@.contains_key(kk));
                    assert(self.chunks@[kk].cells() == g0.chunks@[kk].cells());
                }
            }
        }
    }

    /// The chunks, by packed chunk coordinate (see `key_of`).
    pub fn chunks(&self) -> (r: &HashMap<u64, GenericChunk<T>>)
        ensures
            r@ == self.chunk_map(),
    {
        &self.chunks
    }

    /// The chunk coordinate of `point`.
    pub fn point_to_chunk_coord(&self, point: &[i32; 2]) -> (r: [i32; 2])
        requires
            self.wf(),
        ensures
            r[0] == chunk_of(point[0] as int, self.spec_chunk_size() as int),
            r[1] == chunk_of(point[1] as int, self.spec_chunk_size() as int),
    {
        chunk_coord_of(self.chunk_size, point)
    }

    /// The inner coordinate of `point`.
    pub fn point_to_inner_coord(&self, point: &[i32; 2]) -> (r: [usize; 2])
        requires
            self.wf(),
        ensures
            r[0] == inner_of(point[0] as int, self.spec_chunk_size() as int),
            r[1] == inner_of(point[1] as int, self.spec_chunk_size() as int),
    {
        inner_coord_of(self.chunk_size, point)
    }

    /// The origin point of a chunk.
    pub fn chunk_coord_to_corner(&self, chunk_coord: &[i32; 2]) -> (r: [i32; 2])
        requires
            self.wf(),
            in_i32(chunk_coord[0] * self.spec_chunk_size()),
            in_i32(chunk_coord[1] * self.spec_chunk_size()),
        ensures
            r[0] == chunk_coord[0] * self.spec_chunk_size(),
            r[1] == chunk_coord[1] * self.spec_chunk_size(),
    {
        corner_of(self.chunk_size, chunk_coord)
    }

    /// The point at an inner coordinate of a chunk.
    pub fn combine_coord(&self, chunk_coord: &[i32; 2], inner_coord: &[usize; 2]) -> (r: [i32; 2])
        requires
            self.wf(),
            inner_coord[0] < self.spec_chunk_size(),
            inner_coord[1] < self.spec_chunk_size(),
            in_i32(chunk_coord[0] * self.spec_chunk_size() + inner_coord[0]),
            in_i32(chunk_coord[1] * self.spec_chunk_size() + inner_coord[1]),
        ensures
            r[0] == chunk_coord[0] * self.spec_chunk_size() + inner_coord[0],
            r[1] == chunk_coord[1] * self.spec_chunk_size() + inner_coord[1],
    {
        combine(self.chunk_size, chunk_coord, inner_coord)
    }

    /// `combine_coord` with the inner coordinate given as a pair.
    pub fn combine_coord_tuple(&self, chunk_coord: &[i32; 2], inner: (usize, usize)) -> (r: [i32; 2])
        requires
            self.wf(),
            inner.0 < self.spec_chunk_size(),
            inner.1 < self.spec_chunk_size(),
            in_i32(chunk_coord[0] * self.spec_chunk_size() + inner.0),
            in_i32(chunk_coord[1] * self.spec_chunk_size() + inner.1),
        ensures
            r[0] == chunk_coord[0] * self.spec_chunk_size() + inner.0,
            r[1] == chunk_coord[1] * self.spec_chunk_size() + inner.1,
    {
        combine(self.chunk_size, chunk_coord, &[inner.0, inner.1])
    }

    /// The chunk coordinate and the inner coordinate of `point`.
    pub fn split_coord(&self, point: &[i32; 2]) -> (r: ([i32; 2], [usize; 2]))
        requires
            self.wf(),
        ensures
            r.0[0] == chunk_of(point[0] as int, self.spec_chunk_size() as int),
            r.0[1] == chunk_of(point[1] as int, self.spec_chunk_size() as int),
            r.1[0] == inner_of(point[0] as int, self.spec_chunk_size() as int),
            r.1[1] == inner_of(point[1] as int, self.spec_chunk_size() as int),
    {
        split(self.chunk_size, point)
    }
}


/// Lazy creation: on a grid with no chunks every cell is absent; once
/// `get_or_create` has touched a point, that point holds the default cell
/// and its chunk is the one chunk that `indexed_chunks` lists.
pub proof fn lemma_lazy_creation<T: Tile>(g0: GenericTiles<T>, g1: GenericTiles<T>, x: int, y: int)
    requires
        g0.wf(),
        g0.chunk_map() == Map::<u64, GenericChunk<T>>::empty(),
        in_i32(x),
        in_i32(y),
        g1.written_from(g0, x, y, T::spec_default()),
    ensures
        forall|a: int, b: int| #[trigger] g0.cell(a, b) is None,
        g1.cell(x, y) == Some(T::spec_default()),
        exists|i: int|
            0 <= i < g1.chunk_list_seq().len() && #[trigger] g1.list_key(i) == key_of(
                chunk_of(x, g1.spec_chunk_size() as int),
                chunk_of(y, g1.spec_chunk_size() as int),
            ) as u64,
        g1.chunk_list_seq().len() == 1,
        g1.chunk_list_seq()[0][0] == chunk_of(x, g1.spec_chunk_size() as int),
        g1.chunk_list_seq()[0][1] == chunk_of(y, g1.spec_chunk_size() as int),
{
    let n = g1.spec_chunk_size() as int;
    let k = key_of(chunk_of(x, n), chunk_of(y, n)) as u64;
    assert(g1.chunk_map().contains_key(k));
    if g0.chunk_list_seq().len() > 0 {
        assert(g0.chunk_map().contains_key(g0.list_key(0)));
    }
    assert(g0.chunk_at(chunk_of(x, n), chunk_of(y, n)) is None);
}

/// Clearing the dirty tracking after a write leaves no modified chunk and
/// keeps the written value.
pub proof fn lemma_clear_keeps_written<T: Tile>(
    g0: GenericTiles<T>,
    g1: GenericTiles<T>,
    g2: GenericTiles<T>,
    x: int,
    y: int,
    v: T,
)
    requires
        g0.wf(),
        g1.written_from(g0, x, y, v),
        g2.cleared_from(g1),
    ensures
        g2.modified_seq().len() == 0,
        g2.cell(x, y) == Some(v),
{
}


/// Replacing the value of a written cell keeps the grid well formed and
/// leaves it written with the new value.
pub proof fn lemma_cell_replaced<T: Tile>(
    g0: GenericTiles<T>,
    mid: GenericTiles<T>,
    fin: GenericTiles<T>,
    x: int,
    y: int,
    v: T,
)
    requires
        g0.wf(),
        in_i32(x),
        in_i32(y),
        exists|w: T| mid.written_from(g0, x, y, w),
        fin.cell_replaced(mid, x, y, v),
    ensures
        fin.written_from(g0, x, y, v),
{
    let w = choose|w: T| mid.written_from(g0, x, y, w);
    let n = mid.spec_chunk_size() as int;
    let cx = chunk_of(x, n);
    let cy = chunk_of(y, n);
    let k = key_of(cx, cy) as u64;
    lemma_chunk_in_range(x, n);
    lemma_chunk_in_range(y, n);
    lemma_cell_index(inner_of(x, n), inner_of(y, n), n);
    assert(mid.chunk_map().contains_key(k));
    assert(fin.chunk_map()[k].wf());
    assert forall|kk: u64| #[trigger] fin.chunk_map().contains_key(kk) implies fin.chunk_map()[kk].wf()
        && fin.chunk_map()[kk].spec_size() == fin.spec_chunk_size() by {
        if kk != k {
            assert(mid.chunk_map().contains_key(kk));
        }
    }
    assert(fin.chunk_map().dom() =~= mid.chunk_map().dom());
    lemma_wf_same_shape(mid, fin);
    assert(fin.wf());
    assert forall|a: int, b: int| in_i32(a) && in_i32(b) && !(a == x && b == y) implies #[trigger] fin.cell(a, b)
        == g0.cell_after_create(x, y, a, b) by {
        lemma_chunk_in_range(a, n);
        lemma_chunk_in_range(b, n);
        lemma_key(chunk_of(a, n), chunk_of(b, n), cx, cy);
        assert(mid.cell(a, b) == g0.cell_after_create(x, y, a, b));
        if chunk_of(a, n) == cx && chunk_of(b, n) == cy {
            lemma_cell_index(inner_of(a, n), inner_of(b, n), n);
            lemma_split_combine(a, n);
            lemma_split_combine(b, n);
            lemma_split_combine(x, n);
            lemma_split_combine(y, n);
        }
    }
    assert forall|a: int, b: int| in_i32(a) && in_i32(b) && !(a == cx && b == cy) implies #[trigger] fin.chunk_modified(a, b)
        == g0.chunk_modified(a, b) by {
        lemma_key(a, b, cx, cy);
        assert(mid.chunk_modified(a, b) == g0.chunk_modified(a, b));
    }
    assert(fin.chunk_modified(cx, cy) == mid.chunk_modified(cx, cy));
    assert(fin.recorded_from(g0, x, y));
}


/// A grid with the chunk size, the chunk list and the set of chunk keys of a
/// well-formed grid, and well-formed chunks, is well formed.
pub proof fn lemma_wf_same_shape<T: Tile>(s0: GenericTiles<T>, s1: GenericTiles<T>)
    requires
        s0.wf(),
        s1.spec_chunk_size() == s0.spec_chunk_size(),
        s1.chunk_list_seq() == s0.chunk_list_seq(),
        s1.chunk_map().dom() == s0.chunk_map().dom(),
        forall|kk: u64| #[trigger]
            s1.chunk_map().contains_key(kk) ==> s1.chunk_map()[kk].wf()
                && s1.chunk_map()[kk].spec_size() == s1.spec_chunk_size(),
    ensures
        s1.wf(),
{
    assert forall|m: int| 0 <= m < s1.chunk_list_seq().len() implies #[trigger] s1.list_key(m)
        == s0.list_key(m) by {}
    assert forall|m: int| 0 <= m < s1.chunk_list_seq().len() implies s1.chunk_map().contains_key(
        #[trigger] s1.list_key(m),
    ) by {
        assert(s0.chunk_map().contains_key(s0.list_key(m)));
    }
    assert forall|kk: u64| #[trigger] s1.chunk_map().contains_key(kk) implies exists|m: int|
        0 <= m < s1.chunk_list_seq().len() && #[trigger] s1.list_key(m) == kk by {
        assert(s0.chunk_map().contains_key(kk));
        let m = choose|m: int| 0 <= m < s0.chunk_list_seq().len() && #[trigger] s0.list_key(m) == kk;
        assert(s1.list_key(m) == kk);
    }
    assert forall|a: int, b: int| 0 <= a < b < s1.chunk_list_seq().len() implies #[trigger] s1.list_key(a)
        != #[trigger] s1.list_key(b) by {
        assert(s0.list_key(a) != s0.list_key(b));
    }
}

} // verus!
