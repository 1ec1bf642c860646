use vstd::prelude::*;

verus! {

/// 1 when the cell `(x, y)` is live in `s`, else 0.
pub open spec fn alive_num(s: Set<(int, int)>, x: int, y: int) -> int {
    if s.contains((x, y)) {
        1
    } else {
        0
    }
}

/// Number of live cells among the eight Moore neighbours of `(x, y)`.
pub open spec fn live_neighbors(s: Set<(int, int)>, x: int, y: int) -> int {
    alive_num(s, x, y + 1) + alive_num(s, x, y - 1) + alive_num(s, x + 1, y) + alive_num(s, x - 1, y)
        + alive_num(s, x - 1, y + 1) + alive_num(s, x + 1, y + 1) + alive_num(s, x - 1, y - 1)
        + alive_num(s, x + 1, y - 1)
}

/// The B3/S23 rule: a dead cell with three live neighbours is born, a live cell
/// with two or three survives, every other cell is dead.
pub open spec fn next_state(alive: bool, n: int) -> bool {
    if alive {
        n == 2 || n == 3
    } else {
        n == 3
    }
}

/// The generation that follows the live-cell set `s` on the infinite plane.
pub open spec fn next_generation(s: Set<(int, int)>) -> Set<(int, int)> {
    Set::new(|c: (int, int)| next_state(s.contains(c), live_neighbors(s, c.0, c.1)))
}

/// A cell whose whole 3×3 block is dead stays dead.
pub proof fn lemma_quiet_block_stays_dead(s: Set<(int, int)>, x: int, y: int)
    requires
        forall|dx: int, dy: int|
            -1 <= dx <= 1 && -1 <= dy <= 1 ==> !#[trigger] s.contains((x + dx, y + dy)),
    ensures
        !next_generation(s).contains((x, y)),
{
    assert(!s.contains((x + (0), y + (1))));
    assert(!s.contains((x + (0), y + (-1))));
    assert(!s.contains((x + (1), y + (0))));
    assert(!s.contains((x + (-1), y + (0))));
    assert(!s.contains((x + (-1), y + (1))));
    assert(!s.contains((x + (1), y + (1))));
    assert(!s.contains((x + (-1), y + (-1))));
    assert(!s.contains((x + (1), y + (-1))));
    assert(!s.contains((x + (0), y + (0))));
}

/// The 2×2 block with lower-left cell `(x, y)`.
pub open spec fn block(x: int, y: int) -> Set<(int, int)> {
    set![(x, y), (x + 1, y), (x, y + 1), (x + 1, y + 1)]
}

/// `s` after `n` generations.
pub open spec fn generations(s: Set<(int, int)>, n: nat) -> Set<(int, int)>
    decreases n,
{
    if n == 0 {
        s
    } else {
        next_generation(generations(s, (n - 1) as nat))
    }
}

/// A lone 2×2 block is a still life: it is unchanged by any number of generations.
pub proof fn lemma_block_is_still(x: int, y: int, n: nat)
    ensures
        generations(block(x, y), n) == block(x, y),
    decreases n,
{
    let b = block(x, y);
    assert forall|c: (int, int)| #[trigger] next_generation(b).contains(c) == b.contains(c) by {
        let (p, q) = c;
        if p < x - 1 || p > x + 2 || q < y - 1 || q > y + 2 {
            assert(live_neighbors(b, p, q) == 0);
        } else if b.contains(c) {
            assert(live_neighbors(b, p, q) == 3);
        } else {
            assert(live_neighbors(b, p, q) != 3);
        }
    }
    assert(next_generation(b) =~= b);
    if n > 0 {
        lemma_block_is_still(x, y, (n - 1) as nat);
    }
}

/// A pattern entry: `Some(v)` writes `v`, `None` leaves the cell as it is.
pub open spec fn shape_entry(shape: Seq<Seq<Option<bool>>>, i: int, j: int) -> Option<bool> {
    if 0 <= i < shape.len() && 0 <= j < shape[i].len() {
        shape[i][j]
    } else {
        None
    }
}

/// The live-cell set after stamping `shape` (a sequence of columns) with its
/// entry `(0, 0)` at `(ox, oy)`.
pub open spec fn stamped(s: Set<(int, int)>, ox: int, oy: int, shape: Seq<Seq<Option<bool>>>) -> Set<
    (int, int),
> {
    Set::new(
        |c: (int, int)|
            match shape_entry(shape, c.0 - ox, c.1 - oy) {
                Some(v) => v,
                None => s.contains(c),
            },
    )
}

/// Stamping a pattern changes no cell outside the positions of its `Some` entries;
/// in particular a pattern made only of `None` changes nothing.
pub proof fn lemma_stamp_touches_only_set_entries(
    s: Set<(int, int)>,
    ox: int,
    oy: int,
    shape: Seq<Seq<Option<bool>>>,
)
    ensures
        forall|c: (int, int)|
            shape_entry(shape, c.0 - ox, c.1 - oy) is None ==> (#[trigger] stamped(
                s,
                ox,
                oy,
                shape,
            ).contains(c) <==> s.contains(c)),
        (forall|i: int, j: int|
            0 <= i < shape.len() && 0 <= j < shape[i].len() ==> #[trigger] shape[i][j] is None)
            ==> stamped(s, ox, oy, shape) == s,
{
    if forall|i: int, j: int|
        0 <= i < shape.len() && 0 <= j < shape[i].len() ==> #[trigger] shape[i][j] is None {
        assert(stamped(s, ox, oy, shape) =~= s);
    }
}

} // verus!
