use vstd::prelude::*;

verus! {

/// Number of `true` entries of a sequence.
pub open spec fn count_true(s: Seq<bool>) -> nat
    decreases s.len(),
{
    if s.len() == 0 {
        0
    } else {
        count_true(s.drop_last()) + if s.last() {
            1nat
        } else {
            0nat
        }
    }
}

/// Writing one entry moves the count by exactly the change of that entry.
pub proof fn lemma_count_true_update(s: Seq<bool>, i: int, v: bool)
    requires
        0 <= i < s.len(),
    ensures
        count_true(s.update(i, v)) == count_true(s) - (if s[i] {
            1int
        } else {
            0int
        }) + (if v {
            1int
        } else {
            0int
        }),
    decreases s.len(),
{
    let t = s.update(i, v);
    if i == s.len() - 1 {
        assert(t.drop_last() =~= s.drop_last());
    } else {
        assert(t.drop_last() =~= s.drop_last().update(i, v));
        lemma_count_true_update(s.drop_last(), i, v);
    }
}

/// The count is zero exactly when no entry is `true`, and never exceeds the length.
pub proof fn lemma_count_true_bounds(s: Seq<bool>)
    ensures
        count_true(s) <= s.len(),
        count_true(s) == 0 <==> (forall|i: int| 0 <= i < s.len() ==> !s[i]),
    decreases s.len(),
{
    if s.len() > 0 {
        lemma_count_true_bounds(s.drop_last());
        if count_true(s) == 0 {
            assert forall|i: int| 0 <= i < s.len() implies !s[i] by {
                if i < s.len() - 1 {
                    assert(s[i] == s.drop_last()[i]);
                }
            }
        }
        if forall|i: int| 0 <= i < s.len() ==> !s[i] {
            assert forall|i: int| 0 <= i < s.drop_last().len() implies !s.drop_last()[i] by {
                assert(s.drop_last()[i] == s[i]);
            }
        }
    }
}

proof fn lemma_index_in_square(x: int, y: int, size: int)
    requires
        0 <= x < size,
        0 <= y < size,
    ensures
        0 <= x * size + y < size * size,
{
    assert(0 <= x * size + y < size * size) by (nonlinear_arith)
        requires
            0 <= x < size,
            0 <= y < size,
    ;
}

proof fn lemma_index_unique(x1: int, y1: int, x2: int, y2: int, size: int)
    requires
        0 <= x1 < size,
        0 <= y1 < size,
        0 <= x2 < size,
        0 <= y2 < size,
        x1 * size + y1 == x2 * size + y2,
    ensures
        x1 == x2 && y1 == y2,
{
    assert(x1 == x2) by (nonlinear_arith)
        requires
            0 <= y1 < size,
            0 <= y2 < size,
            x1 * size + y1 == x2 * size + y2,
    ;
}

/// A square tile of `size × size` cells, stored row by row, together with the
/// number of its live cells.
pub struct Square {
    size: usize,
    cell: Vec<bool>,
    alive_cells: usize,
}

impl Square {
    /// The tile is well formed: its storage has `size²` entries and the cached
    /// counter equals the number of live entries.
    pub closed spec fn wf(&self) -> bool {
        &&& self.cell@.len() == self.size * self.size
        &&& self.size * self.size <= usize::MAX
        &&& self.alive_cells == count_true(self.cell@)
    }

    /// Side length of the tile.
    pub closed spec fn side(&self) -> nat {
        self.size as nat
    }

    /// State of the local cell `(x, y)`.
    pub closed spec fn cell_at(&self, x: int, y: int) -> bool {
        self.cell@[x * self.size + y]
    }

    /// The cached number of live cells.
    pub closed spec fn alive(&self) -> nat {
        self.alive_cells as nat
    }

    /// In a well-formed tile the counter is zero exactly when every cell is dead.
    pub proof fn lemma_alive_zero(&self)
        requires
            self.wf(),
        ensures
            self.alive() == 0 <==> (forall|x: int, y: int|
                0 <= x < self.side() && 0 <= y < self.side() ==> !#[trigger] self.cell_at(x, y)),
    {
        lemma_count_true_bounds(self.cell@);
        let n = self.size as int;
        if forall|x: int, y: int|
            0 <= x < n && 0 <= y < n ==> !#[trigger] self.cell_at(x, y) {
            assert forall|i: int| 0 <= i < self.cell@.len() implies !self.cell@[i] by {
                let x = i / n;
                let y = i % n;
                vstd::arithmetic::div_mod::lemma_fundamental_div_mod(i, n);
                vstd::arithmetic::div_mod::lemma_mod_pos_bound(i, n);
                assert(0 <= x < n && i == x * n + y) by (nonlinear_arith)
                    requires
                        0 <= i < n * n,
                        i == n * x + y,
                        0 <= y < n,
                ;
                assert(!self.cell_at(x, y));
            }
        }
        if self.alive() == 0 {
            assert forall|x: int, y: int|
                0 <= x < n && 0 <= y < n implies !#[trigger] self.cell_at(x, y) by {
                lemma_index_in_square(x, y, n);
            }
        }
    }

    /// A tile of side `size` with every cell dead.
    pub fn new(size: usize) -> (r: Square)
        requires
            size * size <= usize::MAX,
        ensures
            r.wf(),
            r.side() == size,
            r.alive() == 0,
            forall|x: int, y: int| 0 <= x < size && 0 <= y < size ==> !#[trigger] r.cell_at(x, y),
    {
        let total: usize = size * size;
        let mut cell: Vec<bool> = Vec::new();
        let mut i: usize = 0;
        while i < total
            invariant
                i <= total,
                cell@.len() == i,
                forall|j: int| 0 <= j < i ==> !cell@[j],
            decreases total - i,
        {
            cell.push(false);
            i = i + 1;
        }
        let r = Square { size, cell, alive_cells: 0 };
        proof {
            lemma_count_true_bounds(r.cell@);
            assert forall|x: int, y: int| 0 <= x < size && 0 <= y < size implies !#[trigger] r.cell_at(
                x,
                y,
            ) by {
                lemma_index_in_square(x, y, size as int);
            }
        }
        r
    }

    /// Side length of the tile.
    pub fn size(&self) -> (r: usize)
        ensures
            r == self.side(),
    {
        self.size
    }

    /// Number of live cells, read from the counter.
    pub fn alive_cells(&self) -> (r: usize)
        ensures
            r == self.alive(),
    {
        self.alive_cells
    }

    /// Reads the local cell `(x, y)`.
    pub fn get_cell(&self, x: usize, y: usize) -> (r: bool)
        requires
            self.wf(),
            x < self.side(),
            y < self.side(),
        ensures
            r == self.cell_at(x as int, y as int),
    {
        proof {
            lemma_index_in_square(x as int, y as int, self.size as int);
        }
        self.cell[x * self.size + y]
    }

    /// Writes the local cell `(x, y)`; the counter moves only when the stored value changes.
    pub fn set_cell(&mut self, x: usize, y: usize, v: bool)
        requires
            old(self).wf(),
            x < old(self).side(),
            y < old(self).side(),
        ensures
            final(self).wf(),
            final(self).side() == old(self).side(),
            final(self).cell_at(x as int, y as int) == v,
            forall|a: int, b: int|
                0 <= a < old(self).side() && 0 <= b < old(self).side() && (a != x || b != y)
                    ==> #[trigger] final(self).cell_at(a, b) == old(self).cell_at(a, b),
            final(self).alive() == old(self).alive() - (if old(self).cell_at(x as int, y as int) {
                1int
            } else {
                0int
            }) + (if v {
                1int
            } else {
                0int
            }),
    {
        proof {
            lemma_index_in_square(x as int, y as int, self.size as int);
            lemma_count_true_update(self.cell@, x * self.size + y, v);
            lemma_count_true_bounds(self.cell@.update(x * self.size + y, v));
        }
        let i = x * self.size + y;
        let cur = self.cell[i];
        if cur && !v {
            self.alive_cells = self.alive_cells - 1;
        } else if !cur && v {
            self.alive_cells = self.alive_cells + 1;
        }
        self.cell.set(i, v);
        proof {
            let n = self.size as int;
            assert forall|a: int, b: int|
                0 <= a < n && 0 <= b < n && (a != x || b != y) implies #[trigger] self.cell_at(a, b)
                == old(self).cell_at(a, b) by {
                lemma_index_in_square(a, b, n);
                if a * n + b == i {
                    lemma_index_unique(a, b, x as int, y as int, n);
                }
            }
        }
    }

    /// A copy of the tile, cell for cell.
    pub fn duplicate(&self) -> (r: Square)
        requires
            self.wf(),
        ensures
            r.wf(),
            r.side() == self.side(),
            r.alive() == self.alive(),
            forall|x: int, y: int| #[trigger] r.cell_at(x, y) == self.cell_at(x, y),
    {
        let cell = self.cell.clone();
        assert(cell@ =~= self.cell@);
        Square { size: self.size, cell, alive_cells: self.alive_cells }
    }
}

} // verus!
