use vstd::prelude::*;
use std::collections::BTreeMap;

use crate::direction::{Direction, direction_order};
use crate::life::{alive_num, live_neighbors, next_generation, next_state, shape_entry, stamped};
use crate::square::Square;

verus! {

/// A pattern to stamp: a sequence of columns, each a sequence of entries; `Some(v)`
/// writes `v` and `None` leaves the cell untouched.
pub type Shape = Vec<Vec<Option<bool>>>;

/// The value is a valid `isize`.
pub open spec fn in_isize(v: int) -> bool {
    isize::MIN <= v <= isize::MAX
}

/// The cell `(x, y)` is live in the chunk map `m` with chunks of side `cs`: it lies
/// in the chunk `(⌊x/cs⌋, ⌊y/cs⌋)`, at local position `(x mod cs, y mod cs)`.
pub open spec fn live_in(m: Map<(isize, isize), Square>, cs: int, x: int, y: int) -> bool {
    &&& in_isize(x)
    &&& in_isize(y)
    &&& m.contains_key(((x / cs) as isize, (y / cs) as isize))
    &&& m[((x / cs) as isize, (y / cs) as isize)].cell_at(x % cs, y % cs)
}

/// The chunk coordinate of cell `c`: its coordinates divided by `cs`, rounded down.
pub open spec fn chunk_of(c: (int, int), cs: int) -> (isize, isize) {
    ((c.0 / cs) as isize, (c.1 / cs) as isize)
}

/// The chunk coordinates of the cells of `cells`.
pub open spec fn occupied_by(cells: Set<(int, int)>, cs: int) -> Set<(isize, isize)> {
    cells.map(|c: (int, int)| chunk_of(c, cs))
}

/// A chunk stored under key `k` is well formed, has side `cs`, holds at least one
/// live cell, and each of its live cells has coordinates that fit in `isize`.
pub open spec fn chunk_valid(k: (isize, isize), sq: Square, cs: int) -> bool {
    &&& sq.wf()
    &&& sq.side() == cs
    &&& sq.alive() > 0
    &&& forall|a: int, b: int|
        0 <= a < cs && 0 <= b < cs && #[trigger] sq.cell_at(a, b) ==> in_isize(k.0 * cs + a)
            && in_isize(k.1 * cs + b)
}

/// Every entry of the chunk map is valid.
pub open spec fn chunks_valid(m: Map<(isize, isize), Square>, cs: int) -> bool {
    forall|k: (isize, isize)| #[trigger] m.contains_key(k) ==> chunk_valid(k, m[k], cs)
}

proof fn lemma_decompose(k: int, a: int, cs: int)
    requires
        cs >= 1,
        0 <= a < cs,
    ensures
        (k * cs + a) / cs == k,
        (k * cs + a) % cs == a,
{
    vstd::arithmetic::div_mod::lemma_fundamental_div_mod_converse(k * cs + a, cs, k, a);
}

proof fn lemma_compose(x: int, cs: int)
    requires
        cs >= 1,
    ensures
        x == (x / cs) * cs + x % cs,
        0 <= x % cs < cs,
        x >= 0 ==> 0 <= x / cs <= x,
        x < 0 ==> x <= x / cs < 0,
{
    vstd::arithmetic::div_mod::lemma_fundamental_div_mod(x, cs);
    vstd::arithmetic::div_mod::lemma_mod_bound(x, cs);
    let q = x / cs;
    let r = x % cs;
    assert(cs * q == q * cs) by (nonlinear_arith);
    assert(x >= 0 ==> 0 <= q <= x) by (nonlinear_arith)
        requires
            x == cs * q + r,
            0 <= r < cs,
            cs >= 1,
    ;
    assert(x < 0 ==> x <= q < 0) by (nonlinear_arith)
        requires
            x == cs * q + r,
            0 <= r < cs,
            cs >= 1,
    ;
}

proof fn lemma_side_fits(cs: int)
    requires
        1 <= cs,
        cs * cs <= isize::MAX,
    ensures
        cs <= cs * cs,
        cs <= isize::MAX,
{
    assert(cs <= cs * cs) by (nonlinear_arith)
        requires
            1 <= cs,
    ;
}

/// The entries of a pattern, column by column.
pub open spec fn shape_view(shape: &Shape) -> Seq<Seq<Option<bool>>> {
    shape@.map_values(|col: Vec<Option<bool>>| col@)
}

/// `s` with the entries of `shape` that come before column `x`, row `y` (in
/// column-major order) stamped at `(ox, oy)`.
spec fn stamped_upto(
    s: Set<(int, int)>,
    ox: int,
    oy: int,
    shape: Seq<Seq<Option<bool>>>,
    x: int,
    y: int,
) -> Set<(int, int)> {
    Set::new(
        |c: (int, int)|
            {
                let i = c.0 - ox;
                let j = c.1 - oy;
                if (i < x || (i == x && j < y)) && shape_entry(shape, i, j) is Some {
                    shape_entry(shape, i, j).unwrap()
                } else {
                    s.contains(c)
                }
            },
    )
}

/// Live cells among the first `n` neighbours of `(x, y)`, in traversal order.
spec fn neighbors_upto(s: Set<(int, int)>, x: int, y: int, n: int) -> int
    decreases n,
{
    if n <= 0 {
        0
    } else {
        neighbors_upto(s, x, y, n - 1) + alive_num(
            s,
            x + direction_order()[n - 1].offset().0,
            y + direction_order()[n - 1].offset().1,
        )
    }
}

proof fn lemma_neighbors_upto_all(s: Set<(int, int)>, x: int, y: int)
    ensures
        neighbors_upto(s, x, y, 8) == live_neighbors(s, x, y),
{
    reveal_with_fuel(neighbors_upto, 9);
}

/// Chunk `k` is `j` or one of its eight neighbours.
pub open spec fn adjacent(j: (isize, isize), k: (isize, isize)) -> bool {
    -1 <= k.0 - j.0 <= 1 && -1 <= k.1 - j.1 <= 1
}

/// Chunk `k` is one of `keys` or a neighbour of one.
pub open spec fn near(keys: Set<(isize, isize)>, k: (isize, isize)) -> bool {
    exists|j: (isize, isize)| keys.contains(j) && #[trigger] adjacent(j, k)
}

/// Adds `elem`, if any, under `key`, unless `key` is already present.
fn insert_valid_only(
    key: (isize, isize),
    elem: Option<Square>,
    hs: &mut BTreeMap<(isize, isize), Square>,
)
    ensures
        final(hs)@ == match elem {
            Some(v) => if old(hs)@.contains_key(key) {
                old(hs)@
            } else {
                old(hs)@.insert(key, v)
            },
            None => old(hs)@,
        },
{
    if let Some(value) = elem {
        if !hs.contains_key(&key) {
            hs.insert(key, value);
        }
    }
}

proof fn lemma_adjacent_is_direction(j: (isize, isize), k: (isize, isize))
    requires
        adjacent(j, k),
        k != j,
    ensures
        exists|d: int|
            0 <= d < 8 && k.0 == j.0 + (#[trigger] direction_order()[d]).offset().0 && k.1 == j.1
                + direction_order()[d].offset().1,
{
    let dx = k.0 - j.0;
    let dy = k.1 - j.1;
    let o = direction_order();
    if dx == 0 && dy == 1 {
        assert(o[0].offset() == (0int, 1int));
    } else if dx == 0 && dy == -1 {
        assert(o[1].offset() == (0int, -1int));
    } else if dx == 1 && dy == 0 {
        assert(o[2].offset() == (1int, 0int));
    } else if dx == -1 && dy == 0 {
        assert(o[3].offset() == (-1int, 0int));
    } else if dx == -1 && dy == 1 {
        assert(o[4].offset() == (-1int, 1int));
    } else if dx == 1 && dy == 1 {
        assert(o[5].offset() == (1int, 1int));
    } else if dx == -1 && dy == -1 {
        assert(o[6].offset() == (-1int, -1int));
    } else {
        assert(o[7].offset() == (1int, -1int));
    }
}

proof fn lemma_div_close(x: int, dx: int, cs: int)
    requires
        cs >= 1,
        -1 <= dx <= 1,
    ensures
        -1 <= (x + dx) / cs - x / cs <= 1,
{
    lemma_compose(x, cs);
    lemma_compose(x + dx, cs);
    let q1 = x / cs;
    let q2 = (x + dx) / cs;
    assert(-1 <= q2 - q1 <= 1) by (nonlinear_arith)
        requires
            cs >= 1,
            -1 <= dx <= 1,
            x == q1 * cs + x % cs,
            0 <= x % cs < cs,
            x + dx == q2 * cs + (x + dx) % cs,
            0 <= (x + dx) % cs < cs,
    ;
}

/// Along one axis, chunk `k` and its two neighbours have a margin.
pub open spec fn axis_room(k: int, cs: int) -> bool {
    isize::MIN <= (k - 1) * cs - 1 && (k + 2) * cs <= isize::MAX
}

/// Checks `axis_room(k, c)` without overflow.
fn axis_room_check(k: isize, c: i128) -> (r: bool)
    requires
        1 <= c <= isize::MAX,
    ensures
        r == axis_room(k as int, c as int),
{
    let lo = k as i128 - 1;
    let hi = k as i128 + 2;
    proof {
        assert(-0x8000_0000_0000_0001 * 0x7fff_ffff_ffff_ffff <= lo * c <= 0x7fff_ffff_ffff_ffff
            * 0x7fff_ffff_ffff_ffff) by (nonlinear_arith)
            requires
                -0x8000_0000_0000_0001 <= lo <= 0x7fff_ffff_ffff_ffff,
                1 <= c <= 0x7fff_ffff_ffff_ffff,
        ;
        assert(-0x8000_0000_0000_0001 * 0x7fff_ffff_ffff_ffff <= hi * c <= 0x8000_0000_0000_0001
            * 0x7fff_ffff_ffff_ffff) by (nonlinear_arith)
            requires
                -0x8000_0000_0000_0001 <= hi <= 0x8000_0000_0000_0001,
                1 <= c <= 0x7fff_ffff_ffff_ffff,
        ;
    }
    let min = isize::MIN as i128;
    let max = isize::MAX as i128;
    min <= lo * c - 1 && hi * c <= max
}

/// The keys of a chunk map, each once.
fn map_keys(m: &BTreeMap<(isize, isize), Square>) -> (r: Vec<(isize, isize)>)
    ensures
        r@.to_set() == m@.dom(),
        r@.no_duplicates(),
{
    let mut v: Vec<(isize, isize)> = Vec::new();
    let ghost dom = m@.dom();
    for k in it: m.keys()
        invariant
            v@ == it.seq().unref().take(it.index() as int),
            it.seq().unref().to_set() == dom,
            it.seq().unref().no_duplicates(),
            it.index() == it.seq().len() ==> v@.to_set() == dom && v@.no_duplicates(),
    {
        v.push(*k);
        assert(it.index() + 1 == it.seq().len() ==> v@ =~= it.seq().unref());
    }
    v
}

/// Number of worker groups for `n` occupied chunks: `n / per` clamped to `[1, max]`,
/// at least one.
pub open spec fn worker_count(n: int, per: int, max: int) -> int {
    let q = n / per;
    let m = if max < q {
        max
    } else {
        q
    };
    if m < 1 {
        1
    } else {
        m
    }
}

proof fn lemma_round_robin_unique(g1: int, i1: int, g2: int, i2: int, t: int)
    requires
        0 <= g1 < t,
        0 <= g2 < t,
        0 <= i1,
        0 <= i2,
        g1 + i1 * t == g2 + i2 * t,
    ensures
        g1 == g2 && i1 == i2,
{
    vstd::arithmetic::div_mod::lemma_fundamental_div_mod_converse(g1 + i1 * t, t, i1, g1);
    vstd::arithmetic::div_mod::lemma_fundamental_div_mod_converse(g2 + i2 * t, t, i2, g2);
}

/// An unbounded plane of cells, stored sparsely as square chunks of side
/// `chunksize` keyed by chunk coordinate; only chunks with a live cell are stored.
pub struct Field {
    vec: BTreeMap<(isize, isize), Square>,
    chunksize: usize,
}

impl View for Field {
    type V = Set<(int, int)>;

    /// The set of live cells: those that the stored chunks hold.
    open spec fn view(&self) -> Set<(int, int)> {
        Set::new(|c: (int, int)| live_in(self.chunks(), self.chunk_size(), c.0, c.1))
    }
}

impl Field {
    /// The stored chunks, by chunk coordinate.
    pub closed spec fn chunks(&self) -> Map<(isize, isize), Square> {
        self.vec@
    }

    /// The side length of every chunk.
    pub closed spec fn chunk_size(&self) -> int {
        self.chunksize as int
    }

    /// The chunk coordinate of cell `(x, y)`.
    pub open spec fn key_of(&self, x: int, y: int) -> (isize, isize) {
        chunk_of((x, y), self.chunk_size())
    }

    /// The chunk coordinates that hold a live cell.
    pub open spec fn occupied(&self) -> Set<(isize, isize)> {
        self.chunks().dom()
    }

    /// The field is well formed: a positive chunk size whose square fits in
    /// `isize`, and only valid, non-empty chunks stored.
    pub open spec fn wf(&self) -> bool {
        &&& 1 <= self.chunk_size()
        &&& self.chunk_size() * self.chunk_size() <= isize::MAX
        &&& chunks_valid(self.chunks(), self.chunk_size())
    }

    proof fn lemma_view(&self, x: int, y: int)
        ensures
            self@.contains((x, y)) == live_in(self.vec@, self.chunksize as int, x, y),
    {
    }

    /// An empty field with chunks of side `chunksize`.
    pub fn new(chunksize: usize) -> (r: Field)
        requires
            1 <= chunksize,
            chunksize * chunksize <= isize::MAX,
        ensures
            r.wf(),
            r.chunk_size() == chunksize,
            r@ == Set::<(int, int)>::empty(),
            r.occupied() == Set::<(isize, isize)>::empty(),
            r.occupied() == occupied_by(r@, r.chunk_size()),
    {
        let r = Field { vec: BTreeMap::new(), chunksize };
        assert(r@ =~= Set::<(int, int)>::empty());
        assert(r.occupied() =~= Set::<(isize, isize)>::empty());
        proof {
            r.lemma_occupied_cells();
        }
        r
    }

    /// Splits `x` into its chunk coordinate and its local coordinate.
    fn split_coord(&self, x: isize) -> (r: (isize, usize))
        requires
            self.wf(),
        ensures
            r.0 == (x as int) / self.chunk_size(),
            r.1 == (x as int) % self.chunk_size(),
            r.1 < self.chunk_size(),
            x == r.0 * self.chunk_size() + r.1,
    {
        proof {
            lemma_side_fits(self.chunksize as int);
        }
        let c = self.chunksize as isize;
        proof {
            lemma_compose(x as int, c as int);
        }
        let local = x.checked_rem_euclid(c).unwrap();
        let chunk = x.checked_div_euclid(c).unwrap();
        (chunk, local as usize)
    }

    /// Reads the cell `(x, y)`; a cell in an absent chunk is dead.
    pub fn get_cell(&self, x: isize, y: isize) -> (r: bool)
        requires
            self.wf(),
        ensures
            r == self@.contains((x as int, y as int)),
            r == (self.chunks().contains_key(self.key_of(x as int, y as int)) && self.chunks()[self.key_of(
                x as int,
                y as int,
            )].cell_at(x as int % self.chunk_size(), y as int % self.chunk_size())),
    {
        let (kx, lx) = self.split_coord(x);
        let (ky, ly) = self.split_coord(y);
        proof {
            self.lemma_view(x as int, y as int);
        }
        match self.vec.get(&(kx, ky)) {
            Some(square) => {
                proof {
                    assert(chunk_valid((kx, ky), *square, self.chunk_size()));
                }
                square.get_cell(lx, ly)
            },
            None => false,
        }
    }

    /// Writes the cell at `coords`. A chunk is created for the first live cell that
    /// lands in it and removed as soon as its last live cell dies.
    pub fn set_cell(&mut self, coords: (isize, isize), val: bool)
        requires
            old(self).wf(),
        ensures
            final(self).wf(),
            final(self).chunk_size() == old(self).chunk_size(),
            final(self)@ == (if val {
                old(self)@.insert((coords.0 as int, coords.1 as int))
            } else {
                old(self)@.remove((coords.0 as int, coords.1 as int))
            }),
            final(self).occupied() == occupied_by(final(self)@, final(self).chunk_size()),
            val ==> final(self).chunks().contains_key(old(self).key_of(coords.0 as int, coords.1 as int))
                && final(self).chunks()[old(self).key_of(coords.0 as int, coords.1 as int)].cell_at(
                coords.0 as int % old(self).chunk_size(),
                coords.1 as int % old(self).chunk_size(),
            ),
            forall|k: (isize, isize)|
                k != old(self).key_of(coords.0 as int, coords.1 as int) ==> (
                #[trigger] final(self).chunks().contains_key(k)
                    == old(self).chunks().contains_key(k) && (old(self).chunks().contains_key(k)
                    ==> final(self).chunks()[k] == old(self).chunks()[k])),
            val == old(self)@.contains((coords.0 as int, coords.1 as int)) ==> final(self).chunks()
                == old(self).chunks(),
            final(self).occupied() == (if occupied_by(final(self)@, final(self).chunk_size()).contains(
                old(self).key_of(coords.0 as int, coords.1 as int),
            ) {
                old(self).occupied().insert(old(self).key_of(coords.0 as int, coords.1 as int))
            } else {
                old(self).occupied().remove(old(self).key_of(coords.0 as int, coords.1 as int))
            }),
    {
        if self.get_cell(coords.0, coords.1) == val {
            proof {
                let c = (coords.0 as int, coords.1 as int);
                let target = if val {
                    self@.insert(c)
                } else {
                    self@.remove(c)
                };
                assert(self@ =~= target);
                self.lemma_occupied_cells();
                let k0 = self.key_of(c.0, c.1);
                assert(occupied_by(self@, self.chunk_size()).contains(k0) == self.occupied().contains(k0));
                assert(self.occupied() =~= (if self.occupied().contains(k0) {
                    self.occupied().insert(k0)
                } else {
                    self.occupied().remove(k0)
                }));
            }
            return;
        }
        let (kx, lx) = self.split_coord(coords.0);
        let (ky, ly) = self.split_coord(coords.1);
        let key = (kx, ky);
        let ghost cs = self.chunk_size();
        let ghost old_m = self.vec@;
        match self.vec.remove(&key) {
            Some(mut square) => {
                proof {
                    assert(chunk_valid(key, square, cs));
                }
                square.set_cell(lx, ly, val);
                if square.alive_cells() > 0 {
                    self.vec.insert(key, square);
                    proof {
                        assert forall|a: int, b: int|
                            0 <= a < cs && 0 <= b < cs && #[trigger] square.cell_at(a, b) implies in_isize(
                            key.0 * cs + a,
                        ) && in_isize(key.1 * cs + b) by {
                            if a != lx || b != ly {
                                assert(old_m[key].cell_at(a, b));
                            }
                        }
                        assert(chunk_valid(key, square, cs));
                    }
                } else {
                    proof {
                        square.lemma_alive_zero();
                        assert forall|a: int, b: int|
                            0 <= a < cs && 0 <= b < cs && (a != lx || b != ly) implies !#[trigger] old_m[key].cell_at(
                            a,
                            b,
                        ) by {
                            assert(!square.cell_at(a, b));
                        }
                    }
                }
            },
            None => {
                if val {
                    let mut square = Square::new(self.chunksize);
                    square.set_cell(lx, ly, true);
                    self.vec.insert(key, square);
                    proof {
                        assert forall|a: int, b: int|
                            0 <= a < cs && 0 <= b < cs && #[trigger] square.cell_at(a, b) implies in_isize(
                            key.0 * cs + a,
                        ) && in_isize(key.1 * cs + b) by {
                            if a != lx || b != ly {
                                assert(!square.cell_at(a, b));
                            }
                        }
                        assert(chunk_valid(key, square, cs));
                    }
                }
            },
        }
        proof {
            let m = self.vec@;
            assert(chunks_valid(m, cs)) by {
                assert forall|k: (isize, isize)| #[trigger] m.contains_key(k) implies chunk_valid(
                    k,
                    m[k],
                    cs,
                ) by {
                    if k != key {
                        assert(old_m.contains_key(k));
                    }
                }
            }
            let target = if val {
                old(self)@.insert((coords.0 as int, coords.1 as int))
            } else {
                old(self)@.remove((coords.0 as int, coords.1 as int))
            };
            assert forall|c: (int, int)| #[trigger] self@.contains(c) == target.contains(c) by {
                self.lemma_view(c.0, c.1);
                old(self).lemma_view(c.0, c.1);
                if in_isize(c.0) && in_isize(c.1) {
                    lemma_compose(c.0, cs);
                    lemma_compose(c.1, cs);
                    let kc = ((c.0 / cs) as isize, (c.1 / cs) as isize);
                    if kc == key {
                        if c.0 % cs == lx && c.1 % cs == ly {
                            assert(c == (coords.0 as int, coords.1 as int));
                        } else {
                            assert(c != (coords.0 as int, coords.1 as int));
                            if old_m.contains_key(key) && !m.contains_key(key) {
                                assert(old_m[key].cell_at(c.0 % cs, c.1 % cs) == false);
                            }
                        }
                    } else {
                        if c == (coords.0 as int, coords.1 as int) {
                            assert(kc == key);
                        }
                    }
                }
            }
            assert(self@ =~= target);
            self.lemma_occupied_cells();
            assert(key == old(self).key_of(coords.0 as int, coords.1 as int));
            let occ = occupied_by(self@, cs);
            assert(self.occupied() =~= (if occ.contains(key) {
                old(self).occupied().insert(key)
            } else {
                old(self).occupied().remove(key)
            }));
        }
    }

    /// Stamps `shape` with its entry `(0, 0)` at `coords`: entry `(i, j)` writes the
    /// cell `(coords.0 + i, coords.1 + j)` unless it is `None`.
    pub fn set_shape_at(&mut self, coords: (isize, isize), shape: &Shape)
        requires
            old(self).wf(),
            shape@.len() <= isize::MAX,
            coords.0 + shape@.len() <= isize::MAX + 1,
            forall|i: int|
                0 <= i < shape@.len() ==> #[trigger] shape@[i]@.len() <= isize::MAX && coords.1
                    + shape@[i]@.len() <= isize::MAX + 1,
        ensures
            final(self).wf(),
            final(self).chunk_size() == old(self).chunk_size(),
            final(self)@ == stamped(old(self)@, coords.0 as int, coords.1 as int, shape_view(shape)),
            final(self).occupied() == occupied_by(final(self)@, final(self).chunk_size()),
            (forall|i: int, j: int|
                0 <= i < shape@.len() && 0 <= j < shape@[i]@.len() ==> #[trigger] shape@[i]@[j] is None)
                ==> final(self).chunks() == old(self).chunks(),
    {
        let ghost all_none = forall|i: int, j: int|
            0 <= i < shape@.len() && 0 <= j < shape@[i]@.len() ==> #[trigger] shape@[i]@[j] is None;
        let ghost s0 = self@;
        let ghost sv = shape_view(shape);
        let ghost ox = coords.0 as int;
        let ghost oy = coords.1 as int;
        assert(stamped_upto(s0, ox, oy, sv, 0, 0) =~= s0);
        let mut x: usize = 0;
        while x < shape.len()
            invariant
                self.wf(),
                self.chunk_size() == old(self).chunk_size(),
                s0 == old(self)@,
                sv == shape_view(shape),
                ox == coords.0,
                oy == coords.1,
                x <= shape@.len(),
                shape@.len() <= isize::MAX,
                coords.0 + shape@.len() <= isize::MAX + 1,
                forall|i: int|
                    0 <= i < shape@.len() ==> #[trigger] shape@[i]@.len() <= isize::MAX && coords.1
                        + shape@[i]@.len() <= isize::MAX + 1,
                self@ == stamped_upto(s0, ox, oy, sv, x as int, 0),
                all_none == forall|i: int, j: int|
                    0 <= i < shape@.len() && 0 <= j < shape@[i]@.len() ==> #[trigger] shape@[i]@[j] is None,
                all_none ==> self.chunks() == old(self).chunks(),
            decreases shape@.len() - x,
        {
            let line = &shape[x];
            assert(line@ == sv[x as int]);
            assert(line@ == shape@[x as int]@);
            assert(line@.len() <= isize::MAX && coords.1 + line@.len() <= isize::MAX + 1);
            let mut y: usize = 0;
            while y < line.len()
                invariant
                    self.wf(),
                    self.chunk_size() == old(self).chunk_size(),
                    sv == shape_view(shape),
                    ox == coords.0,
                    oy == coords.1,
                    x < shape@.len(),
                    line@ == sv[x as int],
                    y <= line@.len(),
                    shape@.len() <= isize::MAX,
                    coords.0 + shape@.len() <= isize::MAX + 1,
                    line@.len() <= isize::MAX,
                    coords.1 + line@.len() <= isize::MAX + 1,
                    self@ == stamped_upto(s0, ox, oy, sv, x as int, y as int),
                    line@ == shape@[x as int]@,
                    all_none == forall|i: int, j: int|
                        0 <= i < shape@.len() && 0 <= j < shape@[i]@.len() ==> #[trigger] shape@[i]@[j] is None,
                    all_none ==> self.chunks() == old(self).chunks(),
                decreases line@.len() - y,
            {
                if let Some(val) = line[y] {
                    assert(!all_none) by {
                        assert(shape@[x as int]@[y as int] is Some);
                    }
                    let c = (coords.0 + x as isize, coords.1 + y as isize);
                    let ghost before = self@;
                    self.set_cell(c, val);
                    proof {
                        let after = stamped_upto(s0, ox, oy, sv, x as int, y + 1);
                        assert forall|p: (int, int)| #[trigger] self@.contains(p) == after.contains(p) by {
                            let cp = (c.0 as int, c.1 as int);
                            if p == cp {
                                assert(shape_entry(sv, x as int, y as int) == Some(val));
                                assert(self@.contains(p) == val);
                            } else {
                                assert(self@.contains(p) == before.contains(p));
                                assert(p.0 - ox != x || p.1 - oy != y);
                                assert(before.contains(p) == after.contains(p));
                            }
                        }
                        assert(self@ =~= after);
                    }
                } else {
                    proof {
                        let after = stamped_upto(s0, ox, oy, sv, x as int, y + 1);
                        assert(shape_entry(sv, x as int, y as int) is None);
                        assert(self@ =~= after);
                    }
                }
                y = y + 1;
            }
            proof {
                let after = stamped_upto(s0, ox, oy, sv, x + 1, 0);
                assert(self@ =~= after);
            }
            x = x + 1;
        }
        proof {
            assert(self@ =~= stamped(s0, ox, oy, sv));
            self.lemma_occupied_cells();
        }
    }

    /// Number of stored (occupied) chunks.
    pub fn len(&self) -> (r: usize)
        requires
            self.wf(),
        ensures
            r == self.occupied().len(),
            r == occupied_by(self@, self.chunk_size()).len(),
    {
        proof {
            self.lemma_occupied_cells();
        }
        self.vec.len()
    }

    /// Whether no cell is live (equivalently, no chunk is stored).
    pub fn is_empty(&self) -> (r: bool)
        requires
            self.wf(),
        ensures
            r == (self.occupied().len() == 0),
            r == (self@ == Set::<(int, int)>::empty()),
    {
        let r = self.vec.is_empty();
        proof {
            let cs = self.chunk_size();
            if r {
                assert(self.vec@.dom() =~= Set::<(isize, isize)>::empty());
                assert(self@ =~= Set::<(int, int)>::empty());
            } else {
                let k = choose|k: (isize, isize)| self.vec@.contains_key(k);
                let sq = self.vec@[k];
                assert(chunk_valid(k, sq, cs));
                sq.lemma_alive_zero();
                let (a, b) = choose|a: int, b: int| 0 <= a < cs && 0 <= b < cs && #[trigger] sq.cell_at(a, b);
                lemma_decompose(k.0 as int, a, cs);
                lemma_decompose(k.1 as int, b, cs);
                self.lemma_view(k.0 * cs + a, k.1 * cs + b);
                assert(self@.contains((k.0 * cs + a, k.1 * cs + b)));
            }
            assert(self.vec@.dom().finite());
            if self.vec@.dom().len() == 0 {
                assert(self.vec@.dom() =~= Set::<(isize, isize)>::empty());
            }
        }
        r
    }

    /// The coordinates of the occupied chunks, each once.
    pub fn chunk_coords(&self) -> (r: Vec<(isize, isize)>)
        ensures
            r@.to_set() == self.occupied(),
            r@.no_duplicates(),
            self.wf() ==> r@.to_set() == occupied_by(self@, self.chunk_size()),
    {
        proof {
            if self.wf() {
                self.lemma_occupied_cells();
            }
        }
        map_keys(&self.vec)
    }

    /// Whether chunk `k` is far enough from the ends of `isize` that each of its
    /// cells, and each neighbour of those, has `isize` coordinates.
    pub open spec fn has_margin(&self, k: (isize, isize)) -> bool {
        let cs = self.chunk_size();
        &&& isize::MIN <= k.0 * cs - 1
        &&& (k.0 + 1) * cs <= isize::MAX
        &&& isize::MIN <= k.1 * cs - 1
        &&& (k.1 + 1) * cs <= isize::MAX
    }

    /// The state, one generation on, of local cell `(a, b)` of chunk `k`.
    pub open spec fn next_cell(&self, k: (isize, isize), a: int, b: int) -> bool {
        next_generation(self@).contains((k.0 * self.chunk_size() + a, k.1 * self.chunk_size() + b))
    }

    /// Every cell of chunk `k` is dead one generation on.
    pub open spec fn next_chunk_empty(&self, k: (isize, isize)) -> bool {
        forall|a: int, b: int|
            0 <= a < self.chunk_size() && 0 <= b < self.chunk_size() ==> !#[trigger] self.next_cell(
                k,
                a,
                b,
            )
    }

    /// The stored state of local cell `(a, b)` of chunk `k`; an absent chunk is all dead.
    pub open spec fn stored_cell(&self, k: (isize, isize), a: int, b: int) -> bool {
        self.occupied().contains(k) && self.chunks()[k].cell_at(a, b)
    }

    /// The stored state of a local cell is the state of its cell in the plane.
    pub proof fn lemma_stored_cell(&self, k: (isize, isize), a: int, b: int)
        requires
            self.wf(),
            0 <= a < self.chunk_size(),
            0 <= b < self.chunk_size(),
        ensures
            self.stored_cell(k, a, b) == self@.contains(
                (k.0 * self.chunk_size() + a, k.1 * self.chunk_size() + b),
            ),
    {
        let cs = self.chunk_size();
        lemma_decompose(k.0 as int, a, cs);
        lemma_decompose(k.1 as int, b, cs);
        if self.occupied().contains(k) {
            assert(chunk_valid(k, self.chunks()[k], cs));
        }
    }

    /// `sq` is a valid chunk holding, cell for cell, chunk `k` one generation on.
    pub open spec fn is_next_chunk(&self, k: (isize, isize), sq: Square) -> bool {
        &&& chunk_valid(k, sq, self.chunk_size())
        &&& forall|a: int, b: int|
            0 <= a < self.chunk_size() && 0 <= b < self.chunk_size() ==> #[trigger] sq.cell_at(a, b)
                == self.next_cell(k, a, b)
    }

    /// Counts the live cells among the eight neighbours of `(x, y)`.
    fn eval_cells_alive_on_boundary(&self, x: isize, y: isize) -> (r: i32)
        requires
            self.wf(),
            isize::MIN < x < isize::MAX,
            isize::MIN < y < isize::MAX,
        ensures
            r == live_neighbors(self@, x as int, y as int),
    {
        let dirs = Direction::all();
        let mut counter: i32 = 0;
        let mut i: usize = 0;
        while i < dirs.len()
            invariant
                self.wf(),
                isize::MIN < x < isize::MAX,
                isize::MIN < y < isize::MAX,
                dirs@ == direction_order(),
                i <= 8,
                0 <= counter <= i,
                counter == neighbors_upto(self@, x as int, y as int, i as int),
            decreases 8 - i,
        {
            let c = Direction::shift((x, y), &dirs[i]);
            if self.get_cell(c.0, c.1) {
                counter = counter + 1;
            }
            i = i + 1;
        }
        proof {
            lemma_neighbors_upto_all(self@, x as int, y as int);
        }
        counter
    }

    /// A cell strictly inside an absent chunk cannot come alive: its whole 3×3 block
    /// lies in that chunk, which holds no live cell.
    pub proof fn lemma_absent_interior_stays_dead(&self, k: (isize, isize), a: int, b: int)
        requires
            self.wf(),
            !self.occupied().contains(k),
            1 <= a < self.chunk_size() - 1,
            1 <= b < self.chunk_size() - 1,
        ensures
            !self@.contains((k.0 * self.chunk_size() + a, k.1 * self.chunk_size() + b)),
            !self.next_cell(k, a, b),
    {
        let cs = self.chunk_size();
        let x = k.0 * cs + a;
        let y = k.1 * cs + b;
        assert forall|dx: int, dy: int| -1 <= dx <= 1 && -1 <= dy <= 1 implies !#[trigger] self@.contains(
            (x + dx, y + dy),
        ) by {
            lemma_decompose(k.0 as int, a + dx, cs);
            lemma_decompose(k.1 as int, b + dy, cs);
            assert(x + dx == k.0 * cs + (a + dx));
            assert(y + dy == k.1 * cs + (b + dy));
            self.lemma_view(x + dx, y + dy);
        }
        crate::life::lemma_quiet_block_stays_dead(self@, x, y);
        assert(self@.contains((x + 0, y + 0)) == self@.contains((x, y)));
    }

    /// Computes chunk `coords` one generation on; `None` when it would hold no live
    /// cell. A present chunk has every cell evaluated; an absent one only its border
    /// cells, since its interior cannot come alive.
    pub fn update_chunk(&self, coords: (isize, isize)) -> (r: Option<Square>)
        requires
            self.wf(),
            self.has_margin(coords),
        ensures
            match r {
                Some(sq) => self.is_next_chunk(coords, sq),
                None => self.next_chunk_empty(coords),
            },
            r is Some ==> forall|a: int, b: int|
                0 <= a < self.chunk_size() && 0 <= b < self.chunk_size() ==> #[trigger] r.unwrap().cell_at(
                    a,
                    b,
                ) == next_state(
                    self.stored_cell(coords, a, b),
                    live_neighbors(
                        self@,
                        coords.0 * self.chunk_size() + a,
                        coords.1 * self.chunk_size() + b,
                    ),
                ),
            r is None ==> forall|a: int, b: int|
                0 <= a < self.chunk_size() && 0 <= b < self.chunk_size() ==> !next_state(
                    #[trigger] self.stored_cell(coords, a, b),
                    live_neighbors(
                        self@,
                        coords.0 * self.chunk_size() + a,
                        coords.1 * self.chunk_size() + b,
                    ),
                ),
    {
        let ghost cs = self.chunk_size();
        let ghost k = coords;
        proof {
            lemma_side_fits(cs);
        }
        let size = self.chunksize;
        let c = size as isize;
        proof {
            assert((k.0 + 1) * cs == k.0 * cs + cs) by (nonlinear_arith);
            assert((k.1 + 1) * cs == k.1 * cs + cs) by (nonlinear_arith);
        }
        let base_x = coords.0 * c;
        let base_y = coords.1 * c;
        let mut square;
        let mut check_only_boundary = false;
        match self.vec.get(&coords) {
            Some(existing) => {
                square = existing.duplicate();
                proof {
                    assert(chunk_valid(k, *existing, cs));
                    assert forall|a: int, b: int| 0 <= a < cs && 0 <= b < cs implies #[trigger] square.cell_at(a, b)
                        == self@.contains((k.0 * cs + a, k.1 * cs + b)) by {
                        lemma_decompose(k.0 as int, a, cs);
                        lemma_decompose(k.1 as int, b, cs);
                        self.lemma_view(k.0 * cs + a, k.1 * cs + b);
                    }
                }
            },
            None => {
                square = Square::new(size);
                check_only_boundary = true;
                proof {
                    assert forall|a: int, b: int| 0 <= a < cs && 0 <= b < cs implies #[trigger] square.cell_at(a, b)
                        == self@.contains((k.0 * cs + a, k.1 * cs + b)) by {
                        lemma_decompose(k.0 as int, a, cs);
                        lemma_decompose(k.1 as int, b, cs);
                        self.lemma_view(k.0 * cs + a, k.1 * cs + b);
                    }
                }
            },
        }
        let mut x: usize = 0;
        while x < size
            invariant
                self.wf(),
                self.has_margin(k),
                k == coords,
                cs == size,
                cs == self.chunk_size(),
                cs <= isize::MAX,
                c == cs,
                base_x == k.0 * cs,
                base_y == k.1 * cs,
                (k.0 + 1) * cs == k.0 * cs + cs,
                (k.1 + 1) * cs == k.1 * cs + cs,
                check_only_boundary == !self.occupied().contains(k),
                square.wf(),
                square.side() == cs,
                x <= size,
                forall|a: int, b: int|
                    0 <= a < cs && 0 <= b < cs ==> #[trigger] square.cell_at(a, b) == if a < x {
                        self.next_cell(k, a, b)
                    } else {
                        self@.contains((k.0 * cs + a, k.1 * cs + b))
                    },
            decreases size - x,
        {
            let mut y: usize = 0;
            while y < size
                invariant
                    self.wf(),
                    self.has_margin(k),
                    k == coords,
                    cs == size,
                    cs == self.chunk_size(),
                    cs <= isize::MAX,
                    c == cs,
                    base_x == k.0 * cs,
                    base_y == k.1 * cs,
                    (k.0 + 1) * cs == k.0 * cs + cs,
                    (k.1 + 1) * cs == k.1 * cs + cs,
                    check_only_boundary == !self.occupied().contains(k),
                    square.wf(),
                    square.side() == cs,
                    x < size,
                    y <= size,
                    forall|a: int, b: int|
                        0 <= a < cs && 0 <= b < cs ==> #[trigger] square.cell_at(a, b) == if a < x || (a
                            == x && b < y) {
                            self.next_cell(k, a, b)
                        } else {
                            self@.contains((k.0 * cs + a, k.1 * cs + b))
                        },
                decreases size - y,
            {
                if !check_only_boundary || x == 0 || y == 0 || x == size - 1 || y == size - 1 {
                    let gx = base_x + x as isize;
                    let gy = base_y + y as isize;
                    let alive_neighbors = self.eval_cells_alive_on_boundary(gx, gy);
                    let cur = square.get_cell(x, y);
                    if !cur && alive_neighbors == 3 {
                        square.set_cell(x, y, true);
                    } else if cur && !(alive_neighbors == 2 || alive_neighbors == 3) {
                        square.set_cell(x, y, false);
                    }
                    proof {
                        assert(self.next_cell(k, x as int, y as int) == next_state(
                            self@.contains((gx as int, gy as int)),
                            live_neighbors(self@, gx as int, gy as int),
                        ));
                    }
                } else {
                    proof {
                        self.lemma_absent_interior_stays_dead(k, x as int, y as int);
                    }
                }
                y = y + 1;
            }
            x = x + 1;
        }
        if square.alive_cells() == 0 {
            proof {
                square.lemma_alive_zero();
                assert forall|a: int, b: int| 0 <= a < cs && 0 <= b < cs implies !#[trigger] self.next_cell(
                    k,
                    a,
                    b,
                ) by {
                    assert(!square.cell_at(a, b));
                }
                assert forall|a: int, b: int| 0 <= a < cs && 0 <= b < cs implies !next_state(
                    #[trigger] self.stored_cell(k, a, b),
                    live_neighbors(self@, k.0 * cs + a, k.1 * cs + b),
                ) by {
                    self.lemma_stored_cell(k, a, b);
                    assert(!self.next_cell(k, a, b));
                }
            }
            None
        } else {
            proof {
                assert forall|a: int, b: int|
                    0 <= a < cs && 0 <= b < cs && #[trigger] square.cell_at(a, b) implies in_isize(
                    k.0 * cs + a,
                ) && in_isize(k.1 * cs + b) by {}
                assert(chunk_valid(k, square, cs));
                assert forall|a: int, b: int| 0 <= a < cs && 0 <= b < cs implies #[trigger] square.cell_at(a, b)
                    == self.next_cell(k, a, b) by {}
                assert forall|a: int, b: int| 0 <= a < cs && 0 <= b < cs implies #[trigger] square.cell_at(a, b)
                    == next_state(self.stored_cell(k, a, b), live_neighbors(self@, k.0 * cs + a, k.1 * cs + b)) by {
                    self.lemma_stored_cell(k, a, b);
                }
            }
            Some(square)
        }
    }

    /// Chunk `k` and its eight neighbours all have a margin.
    pub open spec fn has_room(&self, k: (isize, isize)) -> bool {
        axis_room(k.0 as int, self.chunk_size()) && axis_room(k.1 as int, self.chunk_size())
    }

    /// `m` holds, for each chunk in or next to `keys` that has a live cell one
    /// generation on, that chunk one generation on, and nothing else.
    pub open spec fn is_next_map(
        &self,
        keys: Set<(isize, isize)>,
        m: Map<(isize, isize), Square>,
    ) -> bool {
        &&& forall|k: (isize, isize)| #[trigger]
            m.contains_key(k) ==> near(keys, k) && self.is_next_chunk(k, m[k])
        &&& forall|k: (isize, isize)|
            near(keys, k) && !self.next_chunk_empty(k) ==> #[trigger] m.contains_key(k)
    }

    proof fn lemma_room_gives_margin(&self, j: (isize, isize), k: (isize, isize))
        requires
            self.wf(),
            self.has_room(j),
            adjacent(j, k),
        ensures
            self.has_margin(k),
            isize::MIN < j.0 < isize::MAX,
            isize::MIN < j.1 < isize::MAX,
    {
        let cs = self.chunk_size();
        lemma_side_fits(cs);
        assert(isize::MIN <= k.0 * cs - 1 && (k.0 + 1) * cs <= isize::MAX) by (nonlinear_arith)
            requires
                cs >= 1,
                j.0 - 1 <= k.0 <= j.0 + 1,
                isize::MIN <= (j.0 - 1) * cs - 1,
                (j.0 + 2) * cs <= isize::MAX,
        ;
        assert(isize::MIN <= k.1 * cs - 1 && (k.1 + 1) * cs <= isize::MAX) by (nonlinear_arith)
            requires
                cs >= 1,
                j.1 - 1 <= k.1 <= j.1 + 1,
                isize::MIN <= (j.1 - 1) * cs - 1,
                (j.1 + 2) * cs <= isize::MAX,
        ;
        assert(isize::MIN < j.0 < isize::MAX) by (nonlinear_arith)
            requires
                cs >= 1,
                isize::MIN <= (j.0 - 1) * cs - 1,
                (j.0 + 2) * cs <= isize::MAX,
        ;
        assert(isize::MIN < j.1 < isize::MAX) by (nonlinear_arith)
            requires
                cs >= 1,
                isize::MIN <= (j.1 - 1) * cs - 1,
                (j.1 + 2) * cs <= isize::MAX,
        ;
    }

    proof fn lemma_next_chunk_not_empty(&self, k: (isize, isize), sq: Square)
        requires
            self.is_next_chunk(k, sq),
        ensures
            !self.next_chunk_empty(k),
    {
        sq.lemma_alive_zero();
    }

    /// Adds to `hs` chunk `key` and its eight neighbours one generation on, keeping
    /// entries that are already there.
    fn update_around(&self, key: (isize, isize), hs: &mut BTreeMap<(isize, isize), Square>)
        requires
            self.wf(),
            self.has_room(key),
        ensures
            forall|k: (isize, isize)| #[trigger]
                old(hs)@.contains_key(k) ==> final(hs)@.contains_key(k) && final(hs)@[k] == old(
                    hs,
                )@[k],
            forall|k: (isize, isize)| #[trigger]
                final(hs)@.contains_key(k) && !old(hs)@.contains_key(k) ==> adjacent(key, k)
                    && self.is_next_chunk(k, final(hs)@[k]),
            forall|k: (isize, isize)|
                adjacent(key, k) && !self.next_chunk_empty(k) ==> #[trigger] final(hs)@.contains_key(k),
    {
        let ghost h0 = hs@;
        proof {
            self.lemma_room_gives_margin(key, key);
        }
        let newchunk = self.update_chunk(key);
        insert_valid_only(key, newchunk, hs);
        let dirs = Direction::all();
        let mut i: usize = 0;
        while i < dirs.len()
            invariant
                self.wf(),
                self.has_room(key),
                isize::MIN < key.0 < isize::MAX,
                isize::MIN < key.1 < isize::MAX,
                dirs@ == direction_order(),
                i <= 8,
                forall|k: (isize, isize)| #[trigger]
                    h0.contains_key(k) ==> hs@.contains_key(k) && hs@[k] == h0[k],
                forall|k: (isize, isize)| #[trigger]
                    hs@.contains_key(k) && !h0.contains_key(k) ==> adjacent(key, k)
                        && self.is_next_chunk(k, hs@[k]),
                !self.next_chunk_empty(key) ==> hs@.contains_key(key),
                forall|d: int|
                    0 <= d < i && !self.next_chunk_empty(
                        (
                            (key.0 + direction_order()[d].offset().0) as isize,
                            (key.1 + direction_order()[d].offset().1) as isize,
                        ),
                    ) ==> hs@.contains_key(
                        (
                            (key.0 + (#[trigger] direction_order()[d]).offset().0) as isize,
                            (key.1 + direction_order()[d].offset().1) as isize,
                        ),
                    ),
            decreases 8 - i,
        {
            let coords = Direction::shift(key, &dirs[i]);
            proof {
                self.lemma_room_gives_margin(key, coords);
            }
            let newchunk = self.update_chunk(coords);
            insert_valid_only(coords, newchunk, hs);
            i = i + 1;
        }
        proof {
            assert forall|k: (isize, isize)|
                adjacent(key, k) && !self.next_chunk_empty(k) implies #[trigger] hs@.contains_key(k) by {
                if k != key {
                    lemma_adjacent_is_direction(key, k);
                    let d = choose|d: int|
                        0 <= d < 8 && k.0 == key.0 + (#[trigger] direction_order()[d]).offset().0
                            && k.1 == key.1 + direction_order()[d].offset().1;
                    assert(k == (
                        (key.0 + direction_order()[d].offset().0) as isize,
                        (key.1 + direction_order()[d].offset().1) as isize,
                    ));
                }
            }
        }
    }

    /// Every occupied chunk and its neighbours have a margin, so a generation can be
    /// computed without leaving `isize`.
    pub open spec fn steppable(&self) -> bool {
        forall|k: (isize, isize)| #[trigger] self.occupied().contains(k) ==> self.has_room(k)
    }

    /// Computes, for each of `keys` and each of their eight neighbours, the chunk one
    /// generation on, keeping only chunks that hold a live cell.
    pub fn update_keys(&self, keys: &Vec<(isize, isize)>) -> (r: BTreeMap<(isize, isize), Square>)
        requires
            self.wf(),
            forall|i: int| 0 <= i < keys@.len() ==> self.has_room(#[trigger] keys@[i]),
        ensures
            self.is_next_map(keys@.to_set(), r@),
    {
        let mut hs: BTreeMap<(isize, isize), Square> = BTreeMap::new();
        let mut i: usize = 0;
        while i < keys.len()
            invariant
                self.wf(),
                forall|i: int| 0 <= i < keys@.len() ==> self.has_room(#[trigger] keys@[i]),
                i <= keys@.len(),
                forall|k: (isize, isize)| #[trigger]
                    hs@.contains_key(k) ==> (exists|j: int|
                        0 <= j < i && adjacent(#[trigger] keys@[j], k)) && self.is_next_chunk(k, hs@[k]),
                forall|j: int, k: (isize, isize)|
                    0 <= j < i && adjacent(#[trigger] keys@[j], k) && !self.next_chunk_empty(k)
                        ==> #[trigger] hs@.contains_key(k),
            decreases keys@.len() - i,
        {
            let ghost before = hs@;
            self.update_around(keys[i], &mut hs);
            proof {
                assert forall|k: (isize, isize)| #[trigger] hs@.contains_key(k) implies (exists|j: int|
                    0 <= j < i + 1 && adjacent(#[trigger] keys@[j], k)) && self.is_next_chunk(k, hs@[k]) by {
                    if !before.contains_key(k) {
                        assert(adjacent(keys@[i as int], k));
                    }
                }
                assert forall|j: int, k: (isize, isize)|
                    0 <= j < i + 1 && adjacent(#[trigger] keys@[j], k) && !self.next_chunk_empty(k)
                        implies #[trigger] hs@.contains_key(k) by {
                    if j < i {
                        assert(before.contains_key(k));
                    }
                }
            }
            i = i + 1;
        }
        proof {
            let ks = keys@.to_set();
            assert forall|k: (isize, isize)| #[trigger] hs@.contains_key(k) implies near(ks, k) && self.is_next_chunk(
                k,
                hs@[k],
            ) by {
                let j = choose|j: int| 0 <= j < keys@.len() && adjacent(#[trigger] keys@[j], k);
                assert(ks.contains(keys@[j]));
            }
            assert forall|k: (isize, isize)|
                near(ks, k) && !self.next_chunk_empty(k) implies #[trigger] hs@.contains_key(k) by {
                let jk = choose|jk: (isize, isize)| ks.contains(jk) && #[trigger] adjacent(jk, k);
                let j = keys@.index_of(jk);
                assert(keys@[j] == jk);
            }
        }
        hs
    }

    /// Facts about a live cell of a steppable field: its chunk is occupied and the
    /// cell lies at least two cells away from either end of `isize`.
    proof fn lemma_live_cell(&self, x: int, y: int)
        requires
            self.wf(),
            self.steppable(),
            self@.contains((x, y)),
        ensures
            self.occupied().contains(((x / self.chunk_size()) as isize, (y / self.chunk_size()) as isize)),
            ((x / self.chunk_size()) as isize) as int == x / self.chunk_size(),
            ((y / self.chunk_size()) as isize) as int == y / self.chunk_size(),
            isize::MIN + 2 <= x <= isize::MAX - 2,
            isize::MIN + 2 <= y <= isize::MAX - 2,
    {
        let cs = self.chunk_size();
        self.lemma_view(x, y);
        lemma_compose(x, cs);
        lemma_compose(y, cs);
        let k = ((x / cs) as isize, (y / cs) as isize);
        assert(self.occupied().contains(k));
        assert(self.has_room(k));
        let qx = x / cs;
        let qy = y / cs;
        assert(isize::MIN + 2 <= x <= isize::MAX - 2) by (nonlinear_arith)
            requires
                cs >= 1,
                x == qx * cs + x % cs,
                0 <= x % cs < cs,
                isize::MIN <= (qx - 1) * cs - 1,
                (qx + 2) * cs <= isize::MAX,
        ;
        assert(isize::MIN + 2 <= y <= isize::MAX - 2) by (nonlinear_arith)
            requires
                cs >= 1,
                y == qy * cs + y % cs,
                0 <= y % cs < cs,
                isize::MIN <= (qy - 1) * cs - 1,
                (qy + 2) * cs <= isize::MAX,
        ;
    }

    /// A map that holds the next generation of every occupied chunk and of its
    /// neighbours describes exactly the next generation of the whole plane.
    pub proof fn lemma_next_map_view(&self, m: Map<(isize, isize), Square>)
        requires
            self.wf(),
            self.steppable(),
            self.is_next_map(self.occupied(), m),
        ensures
            chunks_valid(m, self.chunk_size()),
            Set::new(|c: (int, int)| live_in(m, self.chunk_size(), c.0, c.1)) == next_generation(
                self@,
            ),
    {
        let cs = self.chunk_size();
        let occ = self.occupied();
        let s = self@;
        let view = Set::new(|c: (int, int)| live_in(m, cs, c.0, c.1));
        assert forall|c: (int, int)| #[trigger] view.contains(c) == next_generation(s).contains(c) by {
            let x = c.0;
            let y = c.1;
            lemma_compose(x, cs);
            lemma_compose(y, cs);
            let kc = ((x / cs) as isize, (y / cs) as isize);
            let in_range = in_isize(x) && in_isize(y);
            if in_range && m.contains_key(kc) {
                assert(self.is_next_chunk(kc, m[kc]));
                assert(m[kc].cell_at(x % cs, y % cs) == self.next_cell(kc, x % cs, y % cs));
            } else if in_range && near(occ, kc) {
                assert(!m.contains_key(kc));
                assert(self.next_chunk_empty(kc));
                assert(!self.next_cell(kc, x % cs, y % cs));
            } else {
                assert forall|dx: int, dy: int| -1 <= dx <= 1 && -1 <= dy <= 1 implies !#[trigger] s.contains(
                    (x + dx, y + dy),
                ) by {
                    if s.contains((x + dx, y + dy)) {
                        self.lemma_live_cell(x + dx, y + dy);
                        lemma_div_close(x, dx, cs);
                        lemma_div_close(y, dy, cs);
                        let kn = (((x + dx) / cs) as isize, ((y + dy) / cs) as isize);
                        assert(in_range);
                        assert(adjacent(kn, kc));
                        assert(near(occ, kc));
                    }
                }
                crate::life::lemma_quiet_block_stays_dead(s, x, y);
            }
        }
        assert(view =~= next_generation(s));
    }

    /// Advances the field by one generation.
    pub fn update(&mut self)
        requires
            old(self).wf(),
            old(self).steppable(),
        ensures
            final(self).wf(),
            final(self).chunk_size() == old(self).chunk_size(),
            final(self)@ == next_generation(old(self)@),
            final(self).occupied() == occupied_by(final(self)@, final(self).chunk_size()),
            old(self).is_next_map(old(self).occupied(), final(self).chunks()),
            forall|k: (isize, isize)| #[trigger]
                final(self).occupied().contains(k) ==> near(old(self).occupied(), k),
    {
        let keys = self.chunk_coords();
        proof {
            assert forall|i: int| 0 <= i < keys@.len() implies self.has_room(#[trigger] keys@[i]) by {
                assert(keys@.to_set().contains(keys@[i]));
            }
        }
        let next = self.update_keys(&keys);
        proof {
            self.lemma_next_map_view(next@);
        }
        self.vec = next;
        proof {
            assert(self@ =~= Set::new(|c: (int, int)| live_in(next@, self.chunk_size(), c.0, c.1)));
            assert(keys@.to_set() == old(self).occupied());
            self.lemma_occupied_cells();
        }
    }

    /// Whether a generation can be computed: every occupied chunk and its neighbours
    /// lie far enough inside `isize`.
    pub fn can_step(&self) -> (r: bool)
        requires
            self.wf(),
        ensures
            r == self.steppable(),
    {
        proof {
            lemma_side_fits(self.chunk_size());
        }
        let keys = self.chunk_coords();
        let c = self.chunksize as i128;
        let mut i: usize = 0;
        while i < keys.len()
            invariant
                self.wf(),
                c == self.chunk_size(),
                1 <= c <= isize::MAX,
                keys@.to_set() == self.occupied(),
                i <= keys@.len(),
                forall|j: int| 0 <= j < i ==> self.has_room(#[trigger] keys@[j]),
            decreases keys@.len() - i,
        {
            let k = keys[i];
            if !axis_room_check(k.0, c) || !axis_room_check(k.1, c) {
                proof {
                    assert(keys@.to_set().contains(k));
                    assert(!self.has_room(k));
                }
                return false;
            }
            i = i + 1;
        }
        proof {
            assert forall|k: (isize, isize)| #[trigger] self.occupied().contains(k) implies self.has_room(k) by {
                assert(keys@.to_set().contains(k));
                let j = keys@.index_of(k);
                assert(keys@[j] == k);
            }
        }
        true
    }

    /// Splits the occupied chunk coordinates round-robin into
    /// `worker_count(occupied, chunks_per_thread, max_threads)` groups: every
    /// occupied coordinate lands in exactly one group, once, and group `g` of `t`
    /// receives the coordinates at positions `g, g + t, g + 2t, ...` of an
    /// enumeration of them.
    pub fn partition_keys(&self, chunks_per_thread: usize, max_threads: usize) -> (groups: Vec<
        Vec<(isize, isize)>,
    >)
        requires
            chunks_per_thread >= 1,
        ensures
            groups@.len() == worker_count(
                self.occupied().len() as int,
                chunks_per_thread as int,
                max_threads as int,
            ),
            forall|g: int, i: int|
                0 <= g < groups@.len() && 0 <= i < groups@[g]@.len() ==> self.occupied().contains(
                    #[trigger] groups@[g]@[i],
                ),
            forall|k: (isize, isize)| #[trigger]
                self.occupied().contains(k) ==> exists|g: int, i: int|
                    0 <= g < groups@.len() && 0 <= i < groups@[g]@.len() && #[trigger] groups@[g]@[i]
                        == k,
            forall|g1: int, i1: int, g2: int, i2: int|
                0 <= g1 < groups@.len() && 0 <= i1 < groups@[g1]@.len() && 0 <= g2 < groups@.len()
                    && 0 <= i2 < groups@[g2]@.len() && #[trigger] groups@[g1]@[i1]
                    == #[trigger] groups@[g2]@[i2] ==> g1 == g2 && i1 == i2,
            forall|g: int|
                0 <= g < groups@.len() ==> g + (#[trigger] groups@[g]@.len()) * groups@.len()
                    >= self.occupied().len() && (groups@[g]@.len() == 0 || g + (groups@[g]@.len() - 1)
                    * groups@.len() < self.occupied().len()),
    {
        let keys = self.chunk_coords();
        let n = keys.len();
        proof {
            assert(keys@.to_set().len() == keys@.len()) by {
                keys@.unique_seq_to_set();
            }
        }
        let q = n / chunks_per_thread;
        let m = if max_threads < q {
            max_threads
        } else {
            q
        };
        let t = if m < 1 {
            1
        } else {
            m
        };
        let mut groups: Vec<Vec<(isize, isize)>> = Vec::new();
        let mut g: usize = 0;
        proof {
            assert(0 * t == 0) by (nonlinear_arith);
            assert(q <= n) by (nonlinear_arith)
                requires
                    q == n / chunks_per_thread,
                    chunks_per_thread >= 1,
            ;
        }
        while g < t
            invariant
                keys@.to_set() == self.occupied(),
                keys@.no_duplicates(),
                n == keys@.len(),
                1 <= t,
                t == 1 || t <= n,
                g <= t,
                groups@.len() == g,
                forall|h: int, i: int|
                    0 <= h < g && 0 <= i < groups@[h]@.len() ==> #[trigger] groups@[h]@[i] == keys@[h + i
                        * t],
                forall|h: int|
                    0 <= h < g ==> (#[trigger] groups@[h]@.len() == 0 || h + (groups@[h]@.len() - 1) * t
                        < n),
                forall|h: int| 0 <= h < g ==> h + (#[trigger] groups@[h]@.len()) * t >= n,
            decreases t - g,
        {
            let mut group: Vec<(isize, isize)> = Vec::new();
            let mut p: usize = g;
            while p < n
                invariant
                    n == keys@.len(),
                    1 <= t,
                    g < t,
                    p <= n,
                    g + group@.len() * t < n ==> p == g + group@.len() * t,
                    g + group@.len() * t >= n ==> p == n,
                    forall|i: int| 0 <= i < group@.len() ==> #[trigger] group@[i] == keys@[g + i * t],
                    group@.len() == 0 || g + (group@.len() - 1) * t < n,
                decreases n - p,
            {
                proof {
                    assert((g + (group@.len() + 1) * t) == (g + group@.len() * t) + t) by (nonlinear_arith);
                }
                let ghost len: int = group@.len() as int;
                let ghost prev = group@;
                let ghost p0 = p as int;
                group.push(keys[p]);
                if n - p <= t {
                    p = n;
                } else {
                    p = p + t;
                }
                proof {
                    assert(p0 == g + len * t);
                    assert(group@[len] == keys@[g + len * t]);
                    assert forall|i: int| 0 <= i < group@.len() implies #[trigger] group@[i]
                        == keys@[g + i * t] by {
                        if i < len {
                            assert(group@[i] == prev[i]);
                        } else {
                            assert(i == len);
                        }
                    }
                }
            }
            let ghost before = groups@;
            groups.push(group);
            proof {
                assert forall|h: int, i: int|
                    0 <= h < g + 1 && 0 <= i < groups@[h]@.len() implies #[trigger] groups@[h]@[i]
                        == keys@[h + i * t] by {
                    if h < g {
                        assert(groups@[h] == before[h]);
                    }
                }
                assert forall|h: int| 0 <= h < g + 1 implies (#[trigger] groups@[h]@.len() == 0 || h + (
                groups@[h]@.len() - 1) * t < n) by {
                    if h < g {
                        assert(groups@[h] == before[h]);
                    }
                }
                assert forall|h: int| 0 <= h < g + 1 implies h + (#[trigger] groups@[h]@.len()) * t >= n by {
                    if h < g {
                        assert(groups@[h] == before[h]);
                    }
                }
            }
            g = g + 1;
        }
        proof {
            let occ = self.occupied();
            assert forall|gg: int, i: int|
                0 <= gg < groups@.len() && 0 <= i < groups@[gg]@.len() implies occ.contains(
                #[trigger] groups@[gg]@[i],
            ) by {
                let len = groups@[gg]@.len();
                assert(gg + i * t < n) by (nonlinear_arith)
                    requires
                        0 <= i < len,
                        gg + (len - 1) * t < n,
                        t >= 1,
                ;
                assert(0 <= gg + i * t) by (nonlinear_arith)
                    requires
                        0 <= i,
                        0 <= gg,
                        t >= 1,
                ;
                assert(keys@.to_set().contains(keys@[gg + i * t]));
            }
            assert forall|k: (isize, isize)| #[trigger] occ.contains(k) implies exists|gg: int, i: int|
                0 <= gg < groups@.len() && 0 <= i < groups@[gg]@.len() && #[trigger] groups@[gg]@[i]
                    == k by {
                let pos = keys@.index_of(k);
                let gg = pos % (t as int);
                let i = pos / (t as int);
                lemma_compose(pos, t as int);
                assert(pos == gg + i * t);
                let len = groups@[gg]@.len();
                assert(i < len) by (nonlinear_arith)
                    requires
                        pos == gg + i * t,
                        pos < n,
                        gg + len * t >= n,
                        t >= 1,
                ;
                assert(groups@[gg]@[i] == k);
            }
            assert forall|g1: int, i1: int, g2: int, i2: int|
                0 <= g1 < groups@.len() && 0 <= i1 < groups@[g1]@.len() && 0 <= g2 < groups@.len()
                    && 0 <= i2 < groups@[g2]@.len() && #[trigger] groups@[g1]@[i1]
                    == #[trigger] groups@[g2]@[i2] implies g1 == g2 && i1 == i2 by {
                assert(0 <= i1 * t && 0 <= i2 * t) by (nonlinear_arith)
                    requires
                        0 <= i1,
                        0 <= i2,
                        t >= 1,
                ;
                let len1 = groups@[g1]@.len();
                let len2 = groups@[g2]@.len();
                assert(g1 + i1 * t < n) by (nonlinear_arith)
                    requires
                        0 <= i1 < len1,
                        g1 + (len1 - 1) * t < n,
                        t >= 1,
                ;
                assert(g2 + i2 * t < n) by (nonlinear_arith)
                    requires
                        0 <= i2 < len2,
                        g2 + (len2 - 1) * t < n,
                        t >= 1,
                ;
                assert(keys@[g1 + i1 * t] == keys@[g2 + i2 * t]);
                lemma_round_robin_unique(g1, i1, g2, i2, t as int);
            }
        }
        groups
    }

    /// Replaces the stored chunks by the union of `parts`. Where several parts hold
    /// the same coordinate, the chunk of one of them is kept.
    fn replace_chunks(&mut self, parts: Vec<BTreeMap<(isize, isize), Square>>)
        requires
            old(self).wf(),
            forall|g: int|
                0 <= g < parts@.len() ==> chunks_valid(#[trigger] parts@[g]@, old(self).chunk_size()),
        ensures
            final(self).wf(),
            final(self).chunk_size() == old(self).chunk_size(),
            forall|k: (isize, isize)| #[trigger]
                final(self).chunks().contains_key(k) <==> exists|g: int|
                    0 <= g < parts@.len() && (#[trigger] parts@[g]@).contains_key(k),
            forall|k: (isize, isize)| #[trigger]
                final(self).chunks().contains_key(k) ==> exists|g: int|
                    0 <= g < parts@.len() && (#[trigger] parts@[g]@).contains_key(k) && parts@[g]@[k]
                        == final(self).chunks()[k],
    {
        let ghost orig = parts@;
        let ghost cs = self.chunk_size();
        let mut parts = parts;
        self.vec.clear();
        while parts.len() > 0
            invariant
                self.wf(),
                self.chunk_size() == cs,
                parts@.len() <= orig.len(),
                forall|g: int| 0 <= g < parts@.len() ==> parts@[g] == orig[g],
                forall|g: int| 0 <= g < orig.len() ==> chunks_valid(#[trigger] orig[g]@, cs),
                forall|k: (isize, isize)| #[trigger]
                    self.vec@.contains_key(k) ==> exists|g: int|
                        parts@.len() <= g < orig.len() && (#[trigger] orig[g]@).contains_key(k)
                            && orig[g]@[k] == self.vec@[k],
                forall|g: int, k: (isize, isize)|
                    parts@.len() <= g < orig.len() && (#[trigger] orig[g]@).contains_key(k)
                        ==> #[trigger] self.vec@.contains_key(k),
            decreases parts@.len(),
        {
            let mut part = parts.pop().unwrap();
            let ghost gi = parts@.len() as int;
            let ghost og = orig[gi]@;
            let keys = map_keys(&part);
            let mut i: usize = 0;
            while i < keys.len()
                invariant
                    self.wf(),
                    self.chunk_size() == cs,
                    0 <= gi < orig.len(),
                    gi == parts@.len(),
                    og == orig[gi]@,
                    forall|g: int| 0 <= g < orig.len() ==> chunks_valid(#[trigger] orig[g]@, cs),
                    keys@.to_set() == og.dom(),
                    keys@.no_duplicates(),
                    i <= keys@.len(),
                    forall|j: int|
                        i <= j < keys@.len() ==> part@.contains_key(#[trigger] keys@[j])
                            && part@[keys@[j]] == og[keys@[j]],
                    forall|j: int|
                        0 <= j < i ==> self.vec@.contains_key(#[trigger] keys@[j])
                            && self.vec@[keys@[j]] == og[keys@[j]],
                    forall|k: (isize, isize)| #[trigger]
                        self.vec@.contains_key(k) ==> exists|g: int|
                            gi <= g < orig.len() && (#[trigger] orig[g]@).contains_key(k)
                                && orig[g]@[k] == self.vec@[k],
                    forall|g: int, k: (isize, isize)|
                        gi < g < orig.len() && (#[trigger] orig[g]@).contains_key(k)
                            ==> #[trigger] self.vec@.contains_key(k),
                decreases keys@.len() - i,
            {
                let k = keys[i];
                let ghost before = self.vec@;
                let ghost part_before = part@;
                assert(part@.contains_key(k));
                match part.remove(&k) {
                    Some(v) => {
                        assert(keys@.to_set().contains(k));
                        assert(chunks_valid(og, cs));
                        self.vec.insert(k, v);
                    },
                    None => {},
                }
                proof {
                    let m = self.vec@;
                    assert(chunks_valid(m, cs)) by {
                        assert forall|kk: (isize, isize)| #[trigger] m.contains_key(kk) implies chunk_valid(
                            kk,
                            m[kk],
                            cs,
                        ) by {
                            if kk != k {
                                assert(before.contains_key(kk));
                            }
                        }
                    }
                    assert forall|j: int|
                        i + 1 <= j < keys@.len() implies part@.contains_key(#[trigger] keys@[j])
                        && part@[keys@[j]] == og[keys@[j]] by {
                        assert(keys@[j] != k);
                        assert(part_before.contains_key(keys@[j]));
                    }
                    assert forall|j: int|
                        0 <= j < i + 1 implies self.vec@.contains_key(#[trigger] keys@[j])
                        && self.vec@[keys@[j]] == og[keys@[j]] by {
                        if j < i {
                            assert(keys@[j] != k);
                            assert(before.contains_key(keys@[j]));
                        }
                    }
                    assert forall|kk: (isize, isize)| #[trigger] m.contains_key(kk) implies exists|g: int|
                        gi <= g < orig.len() && (#[trigger] orig[g]@).contains_key(kk) && orig[g]@[kk]
                            == m[kk] by {
                        if kk == k {
                            assert(keys@.to_set().contains(k));
                            assert(orig[gi]@.contains_key(kk));
                        } else {
                            assert(before.contains_key(kk));
                        }
                    }
                }
                i = i + 1;
            }
            proof {
                assert forall|g: int, k: (isize, isize)|
                    gi <= g < orig.len() && (#[trigger] orig[g]@).contains_key(k)
                        implies #[trigger] self.vec@.contains_key(k) by {
                    if g == gi {
                        assert(keys@.to_set().contains(k));
                        let j = keys@.index_of(k);
                        assert(keys@[j] == k);
                    }
                }
            }
        }
        proof {
            assert forall|k: (isize, isize)| #[trigger]
                self.chunks().contains_key(k) <==> exists|g: int|
                    0 <= g < orig.len() && (#[trigger] orig[g]@).contains_key(k) by {
                if exists|g: int| 0 <= g < orig.len() && (#[trigger] orig[g]@).contains_key(k) {
                    let g = choose|g: int| 0 <= g < orig.len() && (#[trigger] orig[g]@).contains_key(k);
                    assert(self.vec@.contains_key(k));
                }
            }
        }
    }

    /// However the occupied chunk coordinates are split into groups, computing each
    /// group's next-generation map on its own and merging the maps (keeping any one
    /// entry where they overlap) gives the map that the whole set of occupied chunks
    /// calls for, and so exactly the next generation that `update` produces.
    pub proof fn lemma_partition_independent(
        &self,
        groups: Seq<Seq<(isize, isize)>>,
        parts: Seq<Map<(isize, isize), Square>>,
        merged: Map<(isize, isize), Square>,
    )
        requires
            self.wf(),
            self.steppable(),
            parts.len() == groups.len(),
            forall|k: (isize, isize)| #[trigger]
                self.occupied().contains(k) <==> exists|g: int|
                    0 <= g < groups.len() && (#[trigger] groups[g]).contains(k),
            forall|g: int|
                0 <= g < groups.len() ==> self.is_next_map((#[trigger] groups[g]).to_set(), parts[g]),
            forall|k: (isize, isize)| #[trigger]
                merged.contains_key(k) <==> exists|g: int|
                    0 <= g < parts.len() && (#[trigger] parts[g]).contains_key(k),
            forall|k: (isize, isize)| #[trigger]
                merged.contains_key(k) ==> exists|g: int|
                    0 <= g < parts.len() && (#[trigger] parts[g]).contains_key(k) && parts[g][k]
                        == merged[k],
        ensures
            self.is_next_map(self.occupied(), merged),
            Set::new(|c: (int, int)| live_in(merged, self.chunk_size(), c.0, c.1)) == next_generation(
                self@,
            ),
    {
        let occ = self.occupied();
        assert forall|k: (isize, isize)| #[trigger] merged.contains_key(k) implies near(occ, k)
            && self.is_next_chunk(k, merged[k]) by {
            let g = choose|g: int|
                0 <= g < parts.len() && (#[trigger] parts[g]).contains_key(k) && parts[g][k] == merged[k];
            assert(self.is_next_map(groups[g].to_set(), parts[g]));
            let j = choose|j: (isize, isize)| groups[g].to_set().contains(j) && #[trigger] adjacent(j, k);
            assert(groups[g].contains(j));
            assert(occ.contains(j));
        }
        assert forall|k: (isize, isize)| near(occ, k) && !self.next_chunk_empty(k) implies #[trigger] merged.contains_key(
            k,
        ) by {
            let j = choose|j: (isize, isize)| occ.contains(j) && #[trigger] adjacent(j, k);
            let g = choose|g: int| 0 <= g < groups.len() && (#[trigger] groups[g]).contains(j);
            assert(self.is_next_map(groups[g].to_set(), parts[g]));
            assert(groups[g].to_set().contains(j));
            assert(near(groups[g].to_set(), k));
            assert(parts[g].contains_key(k));
        }
        self.lemma_next_map_view(merged);
    }

    /// No stored chunk is all dead: each holds a live cell, which is a live cell of
    /// the plane.
    pub proof fn lemma_no_dead_chunk(&self, k: (isize, isize))
        requires
            self.wf(),
            self.occupied().contains(k),
        ensures
            self.chunks()[k].alive() > 0,
            exists|a: int, b: int|
                0 <= a < self.chunk_size() && 0 <= b < self.chunk_size() && #[trigger] self.chunks()[k].cell_at(
                    a,
                    b,
                ) && self@.contains((k.0 * self.chunk_size() + a, k.1 * self.chunk_size() + b)),
    {
        let cs = self.chunk_size();
        let sq = self.vec@[k];
        assert(chunk_valid(k, sq, cs));
        sq.lemma_alive_zero();
        let (a, b) = choose|a: int, b: int| 0 <= a < cs && 0 <= b < cs && #[trigger] sq.cell_at(a, b);
        lemma_decompose(k.0 as int, a, cs);
        lemma_decompose(k.1 as int, b, cs);
        self.lemma_view(k.0 * cs + a, k.1 * cs + b);
    }

    /// A cell written with `set_cell` reads back with the written value, whatever
    /// its sign or chunk, and no other cell changes.
    pub proof fn lemma_written_cell_reads_back(
        before: &Field,
        after: &Field,
        x: isize,
        y: isize,
        val: bool,
    )
        requires
            after@ == (if val {
                before@.insert((x as int, y as int))
            } else {
                before@.remove((x as int, y as int))
            }),
        ensures
            after@.contains((x as int, y as int)) == val,
            forall|c: (int, int)|
                c != (x as int, y as int) ==> #[trigger] after@.contains(c) == before@.contains(c),
    {
    }

    /// The cells of the view are those the stored chunks hold, and the stored chunk
    /// coordinates are exactly the chunk coordinates of the live cells.
    pub proof fn lemma_occupied_cells(&self)
        requires
            self.wf(),
        ensures
            forall|x: int, y: int|
                #[trigger] self@.contains((x, y)) == live_in(self.chunks(), self.chunk_size(), x, y),
            self.occupied() == occupied_by(self@, self.chunk_size()),
    {
        let cs = self.chunk_size();
        let occ = occupied_by(self@, cs);
        assert forall|k: (isize, isize)| #[trigger] self.occupied().contains(k) == occ.contains(k) by {
            if self.occupied().contains(k) {
                self.lemma_no_dead_chunk(k);
                let (a, b) = choose|a: int, b: int|
                    0 <= a < cs && 0 <= b < cs && #[trigger] self.chunks()[k].cell_at(a, b)
                        && self@.contains((k.0 * cs + a, k.1 * cs + b));
                lemma_decompose(k.0 as int, a, cs);
                lemma_decompose(k.1 as int, b, cs);
                assert(chunk_of((k.0 * cs + a, k.1 * cs + b), cs) == k);
            }
            if occ.contains(k) {
                let c = choose|c: (int, int)| self@.contains(c) && chunk_of(c, cs) == k;
                assert(live_in(self.chunks(), cs, c.0, c.1));
            }
        }
        assert(self.occupied() =~= occ);
    }

    /// Installs the next generation from per-group results: `groups` cover the
    /// occupied chunk coordinates (as `partition_keys` returns them) and `parts[g]`
    /// is the next-generation map of `groups[g]` (as `update_keys` returns it). The
    /// result is the one `update` gives: the same cells and the same chunk keys.
    pub fn merge_generation(
        &mut self,
        groups: &Vec<Vec<(isize, isize)>>,
        parts: Vec<BTreeMap<(isize, isize), Square>>,
    )
        requires
            old(self).wf(),
            old(self).steppable(),
            groups@.len() == parts@.len(),
            forall|g: int, i: int|
                0 <= g < groups@.len() && 0 <= i < groups@[g]@.len() ==> old(self).occupied().contains(
                    #[trigger] groups@[g]@[i],
                ),
            forall|k: (isize, isize)| #[trigger]
                old(self).occupied().contains(k) ==> exists|g: int, i: int|
                    0 <= g < groups@.len() && 0 <= i < groups@[g]@.len() && #[trigger] groups@[g]@[i]
                        == k,
            forall|g: int|
                0 <= g < groups@.len() ==> old(self).is_next_map(
                    (#[trigger] groups@[g]@).to_set(),
                    parts@[g]@,
                ),
        ensures
            final(self).wf(),
            final(self).chunk_size() == old(self).chunk_size(),
            final(self)@ == next_generation(old(self)@),
            final(self).occupied() == occupied_by(final(self)@, final(self).chunk_size()),
            old(self).is_next_map(old(self).occupied(), final(self).chunks()),
    {
        proof {
            assert forall|h: int| 0 <= h < parts@.len() implies chunks_valid(
                #[trigger] parts@[h]@,
                self.chunk_size(),
            ) by {
                assert(self.is_next_map(groups@[h]@.to_set(), parts@[h]@));
            }
        }
        let ghost old_self = *self;
        let ghost pseq = parts@.map_values(|m: BTreeMap<(isize, isize), Square>| m@);
        let ghost gseq = groups@.map_values(|v: Vec<(isize, isize)>| v@);
        let ghost pv = parts@;
        self.replace_chunks(parts);
        proof {
            assert forall|k: (isize, isize)| #[trigger] old_self.occupied().contains(k) <==> exists|g: int|
                0 <= g < gseq.len() && (#[trigger] gseq[g]).contains(k) by {
                if old_self.occupied().contains(k) {
                    let (g, i) = choose|g: int, i: int|
                        0 <= g < groups@.len() && 0 <= i < groups@[g]@.len() && #[trigger] groups@[g]@[i]
                            == k;
                    assert(gseq[g][i] == k);
                }
                if exists|g: int| 0 <= g < gseq.len() && (#[trigger] gseq[g]).contains(k) {
                    let g = choose|g: int| 0 <= g < gseq.len() && (#[trigger] gseq[g]).contains(k);
                    let i = choose|i: int| 0 <= i < gseq[g].len() && gseq[g][i] == k;
                    assert(groups@[g]@[i] == k);
                }
            }
            assert forall|g: int| 0 <= g < gseq.len() implies old_self.is_next_map(
                (#[trigger] gseq[g]).to_set(),
                pseq[g],
            ) by {}
            assert forall|k: (isize, isize)| #[trigger] self.chunks().contains_key(k) <==> exists|g: int|
                0 <= g < pseq.len() && (#[trigger] pseq[g]).contains_key(k) by {
                if exists|g: int| 0 <= g < pseq.len() && (#[trigger] pseq[g]).contains_key(k) {
                    let g = choose|g: int| 0 <= g < pseq.len() && (#[trigger] pseq[g]).contains_key(k);
                    assert(pv[g]@.contains_key(k));
                }
                if self.chunks().contains_key(k) {
                    let g = choose|g: int| 0 <= g < pv.len() && (#[trigger] pv[g]@).contains_key(k);
                    assert(pseq[g].contains_key(k));
                }
            }
            assert forall|k: (isize, isize)| #[trigger] self.chunks().contains_key(k) implies exists|g: int|
                0 <= g < pseq.len() && (#[trigger] pseq[g]).contains_key(k) && pseq[g][k]
                    == self.chunks()[k] by {
                let g = choose|g: int|
                    0 <= g < pv.len() && (#[trigger] pv[g]@).contains_key(k) && pv[g]@[k]
                        == self.chunks()[k];
                assert(pseq[g] == pv[g]@);
            }
            old_self.lemma_partition_independent(gseq, pseq, self.chunks());
            assert(self@ =~= Set::new(
                |c: (int, int)| live_in(self.chunks(), self.chunk_size(), c.0, c.1),
            ));
            self.lemma_occupied_cells();
        }
    }

    /// Advances the field by one generation the way the parallel step does: splits
    /// the occupied chunks into `worker_count(occupied, chunks_per_thread,
    /// max_threads)` groups, computes each group's next-generation map in turn, and
    /// merges them. The result is that of `update`, whatever the grouping.
    pub fn update_partitioned(&mut self, chunks_per_thread: usize, max_threads: usize)
        requires
            old(self).wf(),
            old(self).steppable(),
            chunks_per_thread >= 1,
        ensures
            final(self).wf(),
            final(self).chunk_size() == old(self).chunk_size(),
            final(self)@ == next_generation(old(self)@),
            final(self).occupied() == occupied_by(final(self)@, final(self).chunk_size()),
            old(self).is_next_map(old(self).occupied(), final(self).chunks()),
    {
        let groups = self.partition_keys(chunks_per_thread, max_threads);
        let mut parts: Vec<BTreeMap<(isize, isize), Square>> = Vec::new();
        let mut g: usize = 0;
        while g < groups.len()
            invariant
                self.wf(),
                self.steppable(),
                g <= groups@.len(),
                parts@.len() == g,
                forall|h: int, i: int|
                    0 <= h < groups@.len() && 0 <= i < groups@[h]@.len() ==> self.occupied().contains(
                        #[trigger] groups@[h]@[i],
                    ),
                forall|h: int|
                    0 <= h < g ==> self.is_next_map((#[trigger] groups@[h]@).to_set(), parts@[h]@),
            decreases groups@.len() - g,
        {
            let group = &groups[g];
            proof {
                assert forall|i: int| 0 <= i < group@.len() implies self.has_room(#[trigger] group@[i]) by {
                    assert(self.occupied().contains(groups@[g as int]@[i]));
                }
            }
            let part = self.update_keys(group);
            parts.push(part);
            g = g + 1;
        }
        self.merge_generation(&groups, parts);
    }
}

} // verus!
