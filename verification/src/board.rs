use vstd::prelude::*;
use vstd::string::StringExecFns;
use crate::position::Position;
use crate::rng::shuffle;
use rand::rngs::StdRng;

verus! {

// ---------------------------------------------------------------------------
// The grid model: 81 cells in row-major order, each empty or a digit 1..=9.
// ---------------------------------------------------------------------------

/// Row-major index of the cell at (row, col).
pub open spec fn cell_idx(row: int, col: int) -> int {
    row * 9 + col
}

/// A cell holds either nothing or a digit 1..=9.
pub open spec fn cell_ok(c: Option<i8>) -> bool {
    c matches Some(v) ==> 1 <= v <= 9
}

/// A well-formed grid: 81 cells, each empty or a digit 1..=9.
pub open spec fn grid_wf(g: Seq<Option<i8>>) -> bool {
    &&& g.len() == 81
    &&& forall|i: int| 0 <= i < 81 ==> cell_ok(#[trigger] g[i])
}

/// The grid with every cell empty.
pub open spec fn empty_grid() -> Seq<Option<i8>> {
    Seq::new(81, |i: int| None::<i8>)
}

/// No cell of row `row` other than the one in column `col` holds digit `n`.
pub open spec fn row_ok(g: Seq<Option<i8>>, row: int, col: int, n: i8) -> bool {
    forall|j: int| 0 <= j < 9 && j != col ==> #[trigger] g[cell_idx(row, j)] != Some(n)
}

/// No cell of column `col` other than the one in row `row` holds digit `n`.
pub open spec fn col_ok(g: Seq<Option<i8>>, row: int, col: int, n: i8) -> bool {
    forall|i: int| 0 <= i < 9 && i != row ==> #[trigger] g[cell_idx(i, col)] != Some(n)
}

/// No cell of the 3x3 box of (row, col), other than (row, col) itself,
/// holds digit `n`.
pub open spec fn box_ok(g: Seq<Option<i8>>, row: int, col: int, n: i8) -> bool {
    forall|i: int, j: int|
        0 <= i < 9 && 0 <= j < 9 && i / 3 == row / 3 && j / 3 == col / 3 && !(i == row && j
            == col) ==> #[trigger] g[cell_idx(i, j)] != Some(n)
}

/// Digit `n` may stand at (row, col): no other cell in the same row, column
/// or 3x3 box holds `n`.
pub open spec fn placement_ok(g: Seq<Option<i8>>, row: int, col: int, n: i8) -> bool {
    row_ok(g, row, col, n) && col_ok(g, row, col, n) && box_ok(g, row, col, n)
}

/// Two cells see each other: same row, same column, or same 3x3 box.
pub open spec fn sees(r1: int, c1: int, r2: int, c2: int) -> bool {
    r1 == r2 || c1 == c2 || (r1 / 3 == r2 / 3 && c1 / 3 == c2 / 3)
}

/// Every filled cell is consistent with every other cell: the grid meets the
/// row, column and box uniqueness constraints.
pub open spec fn grid_consistent(g: Seq<Option<i8>>) -> bool {
    forall|r: int, c: int|
        0 <= r < 9 && 0 <= c < 9 ==> ((#[trigger] g[cell_idx(r, c)]) matches Some(n)
            ==> placement_ok(g, r, c, n))
}

/// Every cell is filled.
pub open spec fn grid_complete(g: Seq<Option<i8>>) -> bool {
    forall|i: int| 0 <= i < 81 ==> (#[trigger] g[i]) is Some
}

/// `g2` keeps every filled cell of `g1` with its value.
pub open spec fn grid_extends(g1: Seq<Option<i8>>, g2: Seq<Option<i8>>) -> bool {
    forall|i: int| 0 <= i < 81 && (#[trigger] g1[i]) is Some ==> g2[i] == g1[i]
}

/// Every cell with row-major index below `k` is filled.
pub open spec fn filled_below(g: Seq<Option<i8>>, k: int) -> bool {
    forall|i: int| 0 <= i < k ==> (#[trigger] g[i]) is Some
}

/// `c` is a completion of `root`: a full, well-formed grid that meets every
/// row, column and box constraint and keeps every filled cell of `root`.
pub open spec fn completes(root: Seq<Option<i8>>, c: Seq<Option<i8>>) -> bool {
    grid_wf(c) && grid_complete(c) && grid_consistent(c) && grid_extends(root, c)
}

/// Digit `d` is a candidate at (row, col): the existing value when the cell
/// is filled, or any digit that no other cell of the row, column or box
/// holds when the cell is empty.
pub open spec fn candidate_ok(g: Seq<Option<i8>>, row: int, col: int, d: i8) -> bool {
    if g[cell_idx(row, col)] is Some {
        g[cell_idx(row, col)] == Some(d)
    } else {
        1 <= d <= 9 && placement_ok(g, row, col, d)
    }
}

// ---------------------------------------------------------------------------
// Lemmas about the model.
// ---------------------------------------------------------------------------

/// `placement_ok` says exactly: no distinct cell that sees (row, col) holds `n`.
pub proof fn lemma_placement_ok_unpack(g: Seq<Option<i8>>, row: int, col: int, n: i8)
    requires
        0 <= row < 9,
        0 <= col < 9,
        placement_ok(g, row, col, n),
    ensures
        forall|r2: int, c2: int|
            0 <= r2 < 9 && 0 <= c2 < 9 && sees(row, col, r2, c2) && !(r2 == row && c2 == col)
                ==> #[trigger] g[cell_idx(r2, c2)] != Some(n),
{
    assert forall|r2: int, c2: int|
        0 <= r2 < 9 && 0 <= c2 < 9 && sees(row, col, r2, c2) && !(r2 == row && c2
            == col) implies #[trigger] g[cell_idx(r2, c2)] != Some(n) by {
        if r2 == row {
            assert(c2 != col);
            assert(g[cell_idx(row, c2)] != Some(n));
        } else if c2 == col {
            assert(g[cell_idx(r2, col)] != Some(n));
        } else {
            assert(r2 / 3 == row / 3 && c2 / 3 == col / 3);
            assert(g[cell_idx(r2, c2)] != Some(n));
        }
    }
}

/// The converse: a digit held by no distinct seeing cell may be placed.
pub proof fn lemma_placement_ok_pack(g: Seq<Option<i8>>, row: int, col: int, n: i8)
    requires
        0 <= row < 9,
        0 <= col < 9,
        forall|r2: int, c2: int|
            0 <= r2 < 9 && 0 <= c2 < 9 && sees(row, col, r2, c2) && !(r2 == row && c2 == col)
                ==> #[trigger] g[cell_idx(r2, c2)] != Some(n),
    ensures
        placement_ok(g, row, col, n),
{
    assert forall|j: int| 0 <= j < 9 && j != col implies #[trigger] g[cell_idx(row, j)]
        != Some(n) by {
        assert(sees(row, col, row, j));
    }
    assert forall|i: int| 0 <= i < 9 && i != row implies #[trigger] g[cell_idx(i, col)]
        != Some(n) by {
        assert(sees(row, col, i, col));
    }
    assert forall|i: int, j: int|
        0 <= i < 9 && 0 <= j < 9 && i / 3 == row / 3 && j / 3 == col / 3 && !(i == row && j
            == col) implies #[trigger] g[cell_idx(i, j)] != Some(n) by {
        assert(sees(row, col, i, j));
    }
}

/// Placing a digit that violates no constraint into an empty cell keeps the
/// whole grid consistent.
pub proof fn lemma_place_preserves_consistent(g: Seq<Option<i8>>, row: int, col: int, n: i8)
    requires
        g.len() == 81,
        0 <= row < 9,
        0 <= col < 9,
        g[cell_idx(row, col)] is None,
        placement_ok(g, row, col, n),
        grid_consistent(g),
    ensures
        grid_consistent(g.update(cell_idx(row, col), Some(n))),
{
    let g2 = g.update(cell_idx(row, col), Some(n));
    assert forall|r2: int, c2: int|
        0 <= r2 < 9 && 0 <= c2 < 9 implies ((#[trigger] g2[cell_idx(r2, c2)]) matches Some(m)
        ==> placement_ok(g2, r2, c2, m)) by {
        if g2[cell_idx(r2, c2)] is Some {
            let m = g2[cell_idx(r2, c2)]->Some_0;
            lemma_cell_idx_injective();
            if r2 == row && c2 == col {
                // The freshly placed cell: every other seeing cell is
                // unchanged from `g`, where `placement_ok` held.
                assert(m == n);
                lemma_placement_ok_unpack(g, row, col, n);
                assert forall|r3: int, c3: int|
                    0 <= r3 < 9 && 0 <= c3 < 9 && sees(r2, c2, r3, c3) && !(r3 == r2 && c3
                        == c2) implies #[trigger] g2[cell_idx(r3, c3)] != Some(m) by {
                    assert(g2[cell_idx(r3, c3)] == g[cell_idx(r3, c3)]);
                }
                lemma_placement_ok_pack(g2, r2, c2, m);
            } else {
                // A cell that was already filled in `g`.
                assert(g2[cell_idx(r2, c2)] == g[cell_idx(r2, c2)]);
                assert(g[cell_idx(r2, c2)] == Some(m));
                lemma_placement_ok_unpack(g, r2, c2, m);
                assert forall|r3: int, c3: int|
                    0 <= r3 < 9 && 0 <= c3 < 9 && sees(r2, c2, r3, c3) && !(r3 == r2 && c3
                        == c2) implies #[trigger] g2[cell_idx(r3, c3)] != Some(m) by {
                    if r3 == row && c3 == col {
                        // The placed cell: if it held `m`, the placement at
                        // (row, col) would have seen (r2, c2) holding `m`.
                        if n == m {
                            lemma_placement_ok_unpack(g, row, col, n);
                            assert(sees(row, col, r2, c2));
                            assert(g[cell_idx(r2, c2)] != Some(n));
                            assert(false);
                        }
                    } else {
                        assert(g2[cell_idx(r3, c3)] == g[cell_idx(r3, c3)]);
                    }
                }
                lemma_placement_ok_pack(g2, r2, c2, m);
            }
        }
    }
}

/// Clearing any cell keeps the grid consistent: constraints only relate
/// filled cells.
pub proof fn lemma_clear_preserves_consistent(g: Seq<Option<i8>>, row: int, col: int)
    requires
        g.len() == 81,
        0 <= row < 9,
        0 <= col < 9,
        grid_consistent(g),
    ensures
        grid_consistent(g.update(cell_idx(row, col), None)),
{
    let g2 = g.update(cell_idx(row, col), None);
    assert forall|r2: int, c2: int|
        0 <= r2 < 9 && 0 <= c2 < 9 implies ((#[trigger] g2[cell_idx(r2, c2)]) matches Some(m)
        ==> placement_ok(g2, r2, c2, m)) by {
        if g2[cell_idx(r2, c2)] is Some {
            let m = g2[cell_idx(r2, c2)]->Some_0;
            lemma_cell_idx_injective();
            assert(!(r2 == row && c2 == col));
            assert(g2[cell_idx(r2, c2)] == g[cell_idx(r2, c2)]);
            lemma_placement_ok_unpack(g, r2, c2, m);
            assert forall|r3: int, c3: int|
                0 <= r3 < 9 && 0 <= c3 < 9 && sees(r2, c2, r3, c3) && !(r3 == r2 && c3
                    == c2) implies #[trigger] g2[cell_idx(r3, c3)] != Some(m) by {
                if !(r3 == row && c3 == col) {
                    assert(g2[cell_idx(r3, c3)] == g[cell_idx(r3, c3)]);
                }
            }
            lemma_placement_ok_pack(g2, r2, c2, m);
        }
    }
}

/// A placement that is free of conflicts in a grid is free of conflicts in
/// any grid it extends: removing filled cells removes constraints.
pub proof fn lemma_extends_placement_ok(
    g: Seq<Option<i8>>,
    c: Seq<Option<i8>>,
    row: int,
    col: int,
    n: i8,
)
    requires
        g.len() == 81,
        c.len() == 81,
        0 <= row < 9,
        0 <= col < 9,
        grid_extends(g, c),
        placement_ok(c, row, col, n),
    ensures
        placement_ok(g, row, col, n),
{
    lemma_placement_ok_unpack(c, row, col, n);
    assert forall|r2: int, c2: int|
        0 <= r2 < 9 && 0 <= c2 < 9 && sees(row, col, r2, c2) && !(r2 == row && c2
            == col) implies #[trigger] g[cell_idx(r2, c2)] != Some(n) by {
        if g[cell_idx(r2, c2)] is Some {
            assert(c[cell_idx(r2, c2)] == g[cell_idx(r2, c2)]);
        }
    }
    lemma_placement_ok_pack(g, row, col, n);
}

/// Every completion of `g` fills each cell with a candidate of `g` at that
/// cell: the kept value where `g` is filled, a conflict-free digit where it
/// is empty.
pub proof fn lemma_completion_candidate(g: Seq<Option<i8>>, c: Seq<Option<i8>>, row: int, col: int)
    requires
        g.len() == 81,
        0 <= row < 9,
        0 <= col < 9,
        completes(g, c),
    ensures
        c[cell_idx(row, col)] matches Some(e) ==> candidate_ok(g, row, col, e),
{
    if c[cell_idx(row, col)] is Some {
        let e = c[cell_idx(row, col)]->Some_0;
        if g[cell_idx(row, col)] is Some {
            assert(c[cell_idx(row, col)] == g[cell_idx(row, col)]);
        } else {
            assert(cell_ok(c[cell_idx(row, col)]));
            assert(placement_ok(c, row, col, e));
            lemma_extends_placement_ok(g, c, row, col, e);
        }
    }
}

/// Two completions of the same grid that extend one another are equal; in
/// particular a completion of a complete grid is that grid.
pub proof fn lemma_completion_of_complete(g: Seq<Option<i8>>, c: Seq<Option<i8>>)
    requires
        g.len() == 81,
        c.len() == 81,
        grid_complete(g),
        grid_extends(g, c),
    ensures
        c == g,
{
    assert(c =~= g);
}

/// Two completions of a grid with a single empty cell are equal: the eight
/// filled cells of the hole's row hold eight distinct digits, which leaves
/// exactly one digit for the hole.
pub proof fn lemma_one_hole_determined(
    g: Seq<Option<i8>>,
    row: int,
    col: int,
    c1: Seq<Option<i8>>,
    c2: Seq<Option<i8>>,
)
    requires
        g.len() == 81,
        0 <= row < 9,
        0 <= col < 9,
        g[cell_idx(row, col)] is None,
        forall|i: int| 0 <= i < 81 && i != cell_idx(row, col) ==> (#[trigger] g[i]) is Some,
        completes(g, c1),
        completes(g, c2),
    ensures
        c1 == c2,
{
    broadcast use vstd::seq_lib::seq_to_set_is_finite;
    broadcast use vstd::set::group_set_axioms;

    lemma_cell_idx_injective();
    let hole = cell_idx(row, col);
    assert forall|i: int| 0 <= i < 81 && i != hole implies c1[i] == c2[i] by {
        assert(c1[i] == g[i]);
        assert(c2[i] == g[i]);
    }
    assert(c1[hole] is Some);
    assert(c2[hole] is Some);
    let e1 = c1[hole]->Some_0;
    let e2 = c2[hole]->Some_0;
    assert(cell_ok(c1[hole]));
    assert(cell_ok(c2[hole]));
    // The hole's row in `c1`, as digits: nine pairwise-distinct values.
    let s = Seq::new(9, |j: int| c1[cell_idx(row, j)]->Some_0);
    assert forall|j1: int, j2: int|
        0 <= j1 < 9 && 0 <= j2 < 9 && j1 != j2 implies s[j1] != s[j2] by {
        assert(c1[cell_idx(row, j1)] is Some);
        let v = c1[cell_idx(row, j1)]->Some_0;
        assert(c1[cell_idx(row, j1)] == Some(v));
        assert(placement_ok(c1, row, j1, v));
        assert(c1[cell_idx(row, j2)] != Some(v));
    }
    assert(s.no_duplicates());
    let ds = Seq::new(9, |k: int| (k + 1) as i8);
    assert(ds.no_duplicates());
    s.unique_seq_to_set();
    ds.unique_seq_to_set();
    // The row's nine distinct digits lie among the nine digits, so they are
    // all of them.
    assert forall|d: i8| s.to_set().contains(d) implies ds.to_set().contains(d) by {
        let j = choose|j: int| 0 <= j < s.len() && s[j] == d;
        assert(cell_ok(c1[cell_idx(row, j)]));
        assert(c1[cell_idx(row, j)] == Some(d));
        assert(1 <= d <= 9);
        assert(ds[d - 1] == d);
    }
    assert forall|d: i8| ds.to_set().contains(d) implies s.to_set().contains(d) by {
        if !s.to_set().contains(d) {
            assert(s.to_set().subset_of(ds.to_set().remove(d)));
            vstd::set_lib::lemma_len_subset(s.to_set(), ds.to_set().remove(d));
            assert(ds.to_set().remove(d).len() == 8);
            assert(false);
        }
    }
    // So `c2`'s hole digit occurs in `c1`'s row, and every cell but the
    // hole is excluded by `c2`'s own row constraint.
    assert(ds[e2 - 1] == e2);
    assert(ds.to_set().contains(e2));
    assert(s.to_set().contains(e2));
    let j2 = choose|j2: int| 0 <= j2 < s.len() && s[j2] == e2;
    if j2 != col {
        assert(c1[cell_idx(row, j2)] == Some(e2));
        assert(c2[cell_idx(row, j2)] == Some(e2));
        assert(c2[hole] == Some(e2));
        assert(placement_ok(c2, row, col, e2));
        assert(c2[cell_idx(row, j2)] != Some(e2));
        assert(false);
    }
    assert(s[col] == e1);
    assert(c1 =~= c2);
}

/// Distinct in-range coordinates have distinct row-major indices.
pub proof fn lemma_cell_idx_injective()
    ensures
        forall|r1: int, c1: int, r2: int, c2: int|
            0 <= r1 < 9 && 0 <= c1 < 9 && 0 <= r2 < 9 && 0 <= c2 < 9 && #[trigger] cell_idx(
                r1,
                c1,
            ) == #[trigger] cell_idx(r2, c2) ==> r1 == r2 && c1 == c2,
{
}

/// The empty grid is well-formed and consistent.
pub proof fn lemma_empty_grid_consistent()
    ensures
        grid_wf(empty_grid()),
        grid_consistent(empty_grid()),
        !grid_complete(empty_grid()),
{
    assert(empty_grid()[0] is None);
}

// ---------------------------------------------------------------------------
// The executable board.
// ---------------------------------------------------------------------------

/// A 9x9 board of optional digits 1..=9, stored row-major. A `Board` is a
/// value: copying it yields an independent snapshot.
#[derive(Debug, PartialEq, Eq)]
pub struct Board {
    cells: Vec<Option<i8>>,
}

impl View for Board {
    type V = Seq<Option<i8>>;

    closed spec fn view(&self) -> Seq<Option<i8>> {
        self.cells@
    }
}

impl Clone for Board {
    /// An independent copy holding the same cells.
    fn clone(&self) -> (r: Board)
        ensures
            r@ == self@,
    {
        let mut cells: Vec<Option<i8>> = Vec::new();
        let mut i: usize = 0;
        while i < self.cells.len()
            invariant
                i <= self.cells@.len(),
                cells@ =~= self.cells@.subrange(0, i as int),
            decreases self.cells@.len() - i,
        {
            cells.push(self.cells[i]);
            i += 1;
        }
        proof {
            assert(cells@ =~= self.cells@);
        }
        Board { cells }
    }
}

impl Board {
    /// The board's cells form a well-formed grid.
    pub open spec fn wf(&self) -> bool {
        grid_wf(self@)
    }

    /// The board with every cell empty.
    pub fn init() -> (r: Board)
        ensures
            r@ == empty_grid(),
            r.wf(),
            grid_consistent(r@),
    {
        let mut cells: Vec<Option<i8>> = Vec::new();
        let mut i: usize = 0;
        while i < 81
            invariant
                i <= 81,
                cells@.len() == i,
                forall|k: int| 0 <= k < i ==> (#[trigger] cells@[k]) is None,
            decreases 81 - i,
        {
            cells.push(None);
            i += 1;
        }
        proof {
            assert(cells@ =~= empty_grid());
            lemma_empty_grid_consistent();
        }
        Board { cells }
    }

    /// The cell at `pos`.
    pub fn get(&self, pos: &Position) -> (r: Option<i8>)
        requires
            self.wf(),
            pos.wf(),
        ensures
            r == self@[pos.idx()],
    {
        let i: usize = (pos.row as usize) * 9 + (pos.column as usize);
        self.cells[i]
    }

    /// Sets the cell at `pos` to `num`, in place.
    pub fn place(&mut self, pos: &Position, num: Option<i8>)
        requires
            old(self).wf(),
            pos.wf(),
            cell_ok(num),
        ensures
            final(self)@ == old(self)@.update(pos.idx(), num),
            final(self).wf(),
    {
        let i: usize = (pos.row as usize) * 9 + (pos.column as usize);
        self.cells[i] = num;
    }

    /// A new board equal to this one except that the cell at `pos` holds
    /// `num`; the receiver is not touched.
    pub fn new(&self, pos: &Position, num: Option<i8>) -> (r: Board)
        requires
            self.wf(),
            pos.wf(),
            cell_ok(num),
        ensures
            r@ == self@.update(pos.idx(), num),
            r.wf(),
    {
        let mut new_board = self.clone();
        new_board.place(pos, num);
        new_board
    }

    /// Digit `num` may stand at `position`: no other cell in the same row,
    /// column or 3x3 box holds `num`.
    pub fn valid_placement(&self, position: &Position, num: i8) -> (r: bool)
        requires
            self.wf(),
            position.wf(),
        ensures
            r == placement_ok(self@, position.row as int, position.column as int, num),
    {
        self.valid_row(position, num) && self.valid_column(position, num) && self.valid_box(
            position,
            num,
        )
    }

    /// No cell of `position`'s row other than `position` itself holds `num`.
    pub fn valid_row(&self, position: &Position, num: i8) -> (r: bool)
        requires
            self.wf(),
            position.wf(),
        ensures
            r == row_ok(self@, position.row as int, position.column as int, num),
    {
        let row: usize = position.row as usize;
        let col: usize = position.column as usize;
        let mut j: usize = 0;
        while j < 9
            invariant
                self.wf(),
                position.wf(),
                row == position.row as int,
                col == position.column as int,
                j <= 9,
                forall|jj: int|
                    0 <= jj < j && jj != col ==> #[trigger] self@[cell_idx(row as int, jj)]
                        != Some(num),
            decreases 9 - j,
        {
            if j != col {
                match self.cells[row * 9 + j] {
                    Some(val) => {
                        if val == num {
                            proof {
                                assert(self@[cell_idx(row as int, j as int)] == Some(num));
                            }
                            return false;
                        }
                    },
                    None => (),
                }
            }
            j += 1;
        }
        true
    }

    /// No cell of `position`'s column other than `position` itself holds `num`.
    pub fn valid_column(&self, position: &Position, num: i8) -> (r: bool)
        requires
            self.wf(),
            position.wf(),
        ensures
            r == col_ok(self@, position.row as int, position.column as int, num),
    {
        let row: usize = position.row as usize;
        let col: usize = position.column as usize;
        let mut i: usize = 0;
        while i < 9
            invariant
                self.wf(),
                position.wf(),
                row == position.row as int,
                col == position.column as int,
                i <= 9,
                forall|ii: int|
                    0 <= ii < i && ii != row ==> #[trigger] self@[cell_idx(ii, col as int)]
                        != Some(num),
            decreases 9 - i,
        {
            if i != row {
                match self.cells[i * 9 + col] {
                    Some(val) => {
                        if val == num {
                            proof {
                                assert(self@[cell_idx(i as int, col as int)] == Some(num));
                            }
                            return false;
                        }
                    },
                    None => (),
                }
            }
            i += 1;
        }
        true
    }

    /// No cell of `position`'s 3x3 box other than `position` itself holds `num`.
    pub fn valid_box(&self, position: &Position, num: i8) -> (r: bool)
        requires
            self.wf(),
            position.wf(),
        ensures
            r == box_ok(self@, position.row as int, position.column as int, num),
    {
        let row: usize = position.row as usize;
        let col: usize = position.column as usize;
        let row_start: usize = row - row % 3;
        let column_start: usize = col - col % 3;
        proof {
            assert(row_start == 3 * (row as int / 3));
            assert(column_start == 3 * (col as int / 3));
        }
        let mut row_offset: usize = 0;
        while row_offset < 3
            invariant
                self.wf(),
                position.wf(),
                row == position.row as int,
                col == position.column as int,
                row_start == 3 * (row as int / 3),
                column_start == 3 * (col as int / 3),
                row_offset <= 3,
                forall|i: int, j: int|
                    0 <= i < 9 && 0 <= j < 9 && i / 3 == row as int / 3 && j / 3 == col as int / 3
                        && i < row_start + row_offset && !(i == row as int && j == col as int)
                        ==> #[trigger] self@[cell_idx(i, j)] != Some(num),
            decreases 3 - row_offset,
        {
            let mut column_offset: usize = 0;
            while column_offset < 3
                invariant
                    self.wf(),
                    position.wf(),
                    row == position.row as int,
                    col == position.column as int,
                    row_start == 3 * (row as int / 3),
                    column_start == 3 * (col as int / 3),
                    row_offset < 3,
                    column_offset <= 3,
                    forall|i: int, j: int|
                        0 <= i < 9 && 0 <= j < 9 && i / 3 == row as int / 3 && j / 3 == col as int
                            / 3 && i < row_start + row_offset && !(i == row as int && j
                            == col as int) ==> #[trigger] self@[cell_idx(i, j)] != Some(num),
                    forall|j: int|
                        0 <= j < 9 && j / 3 == col as int / 3 && j < column_start + column_offset
                            && !(row_start + row_offset == row as int && j == col as int)
                            ==> #[trigger] self@[cell_idx(row_start + row_offset as int, j)]
                            != Some(num),
                decreases 3 - column_offset,
            {
                let r_cur: usize = row_start + row_offset;
                let c_cur: usize = column_start + column_offset;
                if !(r_cur == row && c_cur == col) {
                    match self.cells[r_cur * 9 + c_cur] {
                        Some(val) => {
                            if val == num {
                                proof {
                                    assert(self@[cell_idx(r_cur as int, c_cur as int)] == Some(
                                        num,
                                    ));
                                    assert(r_cur as int / 3 == row as int / 3);
                                    assert(c_cur as int / 3 == col as int / 3);
                                }
                                return false;
                            }
                        },
                        None => (),
                    }
                }
                column_offset += 1;
            }
            row_offset += 1;
        }
        proof {
            assert forall|i: int, j: int|
                0 <= i < 9 && 0 <= j < 9 && i / 3 == row as int / 3 && j / 3 == col as int / 3
                    && !(i == row as int && j == col as int) implies #[trigger] self@[cell_idx(
                i,
                j,
            )] != Some(num) by {
                assert(i < row_start + 3);
            }
        }
        true
    }

    /// The candidate digits for `position`: the existing value alone when
    /// the cell is filled, otherwise every digit that violates no row,
    /// column or box constraint, in an order drawn from `rng`.
    pub fn get_valid(&self, position: &Position, rng: &mut StdRng) -> (r: Vec<i8>)
        requires
            self.wf(),
            position.wf(),
        ensures
            forall|d: i8|
                r@.contains(d) <==> candidate_ok(
                    self@,
                    position.row as int,
                    position.column as int,
                    d,
                ),
            r@.no_duplicates(),
            r@.len() <= 9,
    {
        let mut valid: Vec<i8> = Vec::new();
        if let Some(val) = self.get(position) {
            valid.push(val);
            proof {
                assert forall|d: i8|
                    valid@.contains(d) <==> candidate_ok(
                        self@,
                        position.row as int,
                        position.column as int,
                        d,
                    ) by {
                    if valid@.contains(d) {
                        assert(valid@[0] == val);
                    }
                    if candidate_ok(self@, position.row as int, position.column as int, d) {
                        assert(valid@[0] == d);
                        assert(valid@.contains(d));
                    }
                }
            }
            return valid;
        }
        let ghost row = position.row as int;
        let ghost col = position.column as int;
        let mut i: i8 = 1;
        while i <= 9
            invariant
                self.wf(),
                position.wf(),
                row == position.row as int,
                col == position.column as int,
                1 <= i <= 10,
                valid@.len() < i,
                forall|k: int| 0 <= k < valid@.len() ==> 1 <= #[trigger] valid@[k] < i,
                forall|k1: int, k2: int|
                    0 <= k1 < k2 < valid@.len() ==> valid@[k1] < valid@[k2],
                forall|d: i8| valid@.contains(d) <==> (1 <= d < i && placement_ok(self@, row, col, d)),
            decreases 10 - i,
        {
            let ghost prev = valid@;
            if self.valid_placement(position, i) {
                valid.push(i);
            }
            proof {
                assert forall|d: i8|
                    valid@.contains(d) <==> (1 <= d < i + 1 && placement_ok(self@, row, col, d)) by {
                    if valid@.contains(d) {
                        let k = choose|k: int| 0 <= k < valid@.len() && valid@[k] == d;
                        if k < prev.len() {
                            assert(prev.contains(d));
                        } else {
                            assert(d == i);
                        }
                    }
                    if 1 <= d < i + 1 && placement_ok(self@, row, col, d) {
                        if d < i {
                            assert(prev.contains(d));
                            let k = choose|k: int| 0 <= k < prev.len() && prev[k] == d;
                            assert(valid@[k] == d);
                        } else {
                            assert(valid@[valid@.len() - 1] == d);
                        }
                        assert(valid@.contains(d));
                    }
                }
            }
            i += 1;
        }
        proof {
            assert(valid@.no_duplicates());
        }
        let ghost pre_shuffle = valid@;
        shuffle(&mut valid, rng);
        proof {
            pre_shuffle.to_multiset_ensures();
            valid@.to_multiset_ensures();
            assert forall|d: i8| valid@.contains(d) <==> pre_shuffle.contains(d) by {
                assert(valid@.to_multiset().count(d) == pre_shuffle.to_multiset().count(d));
            }
            pre_shuffle.lemma_multiset_has_no_duplicates();
            valid@.lemma_multiset_has_no_duplicates_conv();
            assert(valid@.len() == valid@.to_multiset().len());
            assert(pre_shuffle.len() == pre_shuffle.to_multiset().len());
            assert(self@[cell_idx(position.row as int, position.column as int)] is None);
            assert forall|d: i8|
                valid@.contains(d) <==> candidate_ok(
                    self@,
                    position.row as int,
                    position.column as int,
                    d,
                ) by {
                assert(valid@.contains(d) <==> pre_shuffle.contains(d));
                assert(pre_shuffle.contains(d) <==> (1 <= d < 10 && placement_ok(
                    self@,
                    position.row as int,
                    position.column as int,
                    d,
                )));
            }
        }
        valid
    }

    /// The cells as 9 rows of 9, outermost rows first: the plain
    /// representation used to persist boards.
    pub fn to_cells(&self) -> (r: Vec<Vec<Option<i8>>>)
        requires
            self.wf(),
        ensures
            rows_view(r@) == grid_rows(self@),
    {
        let mut rows: Vec<Vec<Option<i8>>> = Vec::new();
        let mut i: usize = 0;
        while i < 9
            invariant
                self.wf(),
                i <= 9,
                rows@.len() == i,
                forall|k: int| 0 <= k < i ==> (#[trigger] rows@[k])@ == grid_rows(self@)[k],
            decreases 9 - i,
        {
            let mut row: Vec<Option<i8>> = Vec::new();
            let mut j: usize = 0;
            while j < 9
                invariant
                    self.wf(),
                    i < 9,
                    j <= 9,
                    row@.len() == j,
                    forall|k: int| 0 <= k < j ==> #[trigger] row@[k] == self@[cell_idx(i as int, k)],
                decreases 9 - j,
            {
                row.push(self.cells[i * 9 + j]);
                j += 1;
            }
            proof {
                assert(row@ =~= grid_rows(self@)[i as int]);
            }
            rows.push(row);
            i += 1;
        }
        proof {
            assert(rows_view(rows@) =~= grid_rows(self@));
        }
        rows
    }

    /// Reads a board back from 9 rows of 9 cells. Returns `None` exactly
    /// when the rows do not form a well-formed grid: a wrong number of rows,
    /// a wrong row length, or a digit outside 1..=9.
    pub fn from_cells(cells: &Vec<Vec<Option<i8>>>) -> (r: Option<Board>)
        ensures
            r is Some <==> rows_wf(rows_view(cells@)),
            r matches Some(b) ==> b.wf() && b@ == rows_grid(rows_view(cells@)),
    {
        if cells.len() != 9 {
            return None;
        }
        let mut flat: Vec<Option<i8>> = Vec::new();
        let mut i: usize = 0;
        while i < 9
            invariant
                cells@.len() == 9,
                i <= 9,
                flat@.len() == i * 9,
                forall|k: int| 0 <= k < i ==> (#[trigger] cells@[k])@.len() == 9,
                forall|r2: int, c2: int|
                    0 <= r2 < i && 0 <= c2 < 9 ==> #[trigger] flat@[cell_idx(r2, c2)] == cells@[r2]@[c2]
                        && cell_ok(flat@[cell_idx(r2, c2)]),
            decreases 9 - i,
        {
            if cells[i].len() != 9 {
                proof {
                    assert(rows_view(cells@)[i as int] == cells@[i as int]@);
                    assert(!rows_wf(rows_view(cells@)));
                }
                return None;
            }
            let mut j: usize = 0;
            while j < 9
                invariant
                    cells@.len() == 9,
                    i < 9,
                    j <= 9,
                    cells@[i as int]@.len() == 9,
                    flat@.len() == i * 9 + j,
                    forall|k: int| 0 <= k < i ==> (#[trigger] cells@[k])@.len() == 9,
                    forall|r2: int, c2: int|
                        0 <= r2 < i && 0 <= c2 < 9 ==> #[trigger] flat@[cell_idx(r2, c2)]
                            == cells@[r2]@[c2] && cell_ok(flat@[cell_idx(r2, c2)]),
                    forall|c2: int|
                        0 <= c2 < j ==> #[trigger] flat@[cell_idx(i as int, c2)] == cells@[i as int]@[c2]
                            && cell_ok(flat@[cell_idx(i as int, c2)]),
                decreases 9 - j,
            {
                let c = cells[i][j];
                match c {
                    Some(v) => {
                        if v < 1 || v > 9 {
                            proof {
                                assert(rows_view(cells@)[i as int] == cells@[i as int]@);
                                assert(!cell_ok(rows_view(cells@)[i as int][j as int]));
                                assert(!rows_wf(rows_view(cells@)));
                            }
                            return None;
                        }
                    },
                    None => (),
                }
                flat.push(c);
                j += 1;
            }
            i += 1;
        }
        let board = Board { cells: flat };
        proof {
            assert(board@.len() == 81);
            assert forall|k: int| 0 <= k < 81 implies #[trigger] board@[k] == rows_grid(
                rows_view(cells@),
            )[k] && cell_ok(board@[k]) by {
                let r2 = k / 9;
                let c2 = k % 9;
                assert(cell_idx(r2, c2) == k);
                assert(board@[cell_idx(r2, c2)] == cells@[r2]@[c2]);
                assert(rows_view(cells@)[r2] == cells@[r2]@);
            }
            assert(board@ =~= rows_grid(rows_view(cells@)));
            assert forall|r2: int| 0 <= r2 < 9 implies (#[trigger] rows_view(cells@)[r2]).len()
                == 9 by {
                assert(rows_view(cells@)[r2] == cells@[r2]@);
            }
            assert forall|r2: int, c2: int| 0 <= r2 < 9 && 0 <= c2 < 9 implies cell_ok(
                #[trigger] rows_view(cells@)[r2][c2],
            ) by {
                assert(rows_view(cells@)[r2] == cells@[r2]@);
                assert(flat@[cell_idx(r2, c2)] == cells@[r2]@[c2]);
            }
            assert(rows_wf(rows_view(cells@)));
        }
        Some(board)
    }

    /// The rendered board: each row shows its nine cells, a digit or a
    /// blank each followed by a space, with `| ` before columns 3 and 6,
    /// and a `- - - + - - - + - - -` line before rows 3 and 6.
    pub fn print(&self) -> (r: String)
        requires
            self.wf(),
        ensures
            r@ == render_grid(self@),
    {
        let mut result = String::new();
        proof {
            assert(result@ =~= render_upto(self@, 0));
        }
        let mut i: usize = 0;
        while i < 9
            invariant
                self.wf(),
                i <= 9,
                result@ == render_upto(self@, i as int),
            decreases 9 - i,
        {
            if i % 3 == 0 && i != 0 {
                result.append("- - - + - - - + - - -\n");
            }
            proof {
                assert(result@ =~= render_upto(self@, i as int) + (if i as int == 3 || i as int
                    == 6 {
                    sep_line()
                } else {
                    Seq::<char>::empty()
                }));
            }
            let ghost base = result@;
            let mut j: usize = 0;
            proof {
                assert(result@ =~= base + render_row_upto(self@, i as int, 0));
            }
            while j < 9
                invariant
                    self.wf(),
                    i < 9,
                    j <= 9,
                    base == render_upto(self@, i as int) + (if i as int == 3 || i as int == 6 {
                        sep_line()
                    } else {
                        Seq::<char>::empty()
                    }),
                    result@ == base + render_row_upto(self@, i as int, j as int),
                decreases 9 - j,
            {
                let ghost pre = result@;
                if j % 3 == 0 && j != 0 {
                    result.append("| ");
                }
                proof {
                    reveal_strlit("| ");
                    assert(result@ =~= pre + (if j as int == 3 || j as int == 6 {
                        seq!['|', ' ']
                    } else {
                        Seq::<char>::empty()
                    }));
                }
                let ghost mid = result@;
                proof {
                    assert(0 <= cell_idx(i as int, j as int) < 81);
                    assert(cell_ok(self@[cell_idx(i as int, j as int)]));
                }
                match self.cells[i * 9 + j] {
                    None => {
                        result.append("  ");
                        proof {
                            reveal_strlit("  ");
                            assert(result@ =~= mid + render_cell(
                                self@[cell_idx(i as int, j as int)],
                            ));
                        }
                    },
                    Some(v) => {
                        let s = digit_str(v);
                        result.append(s);
                        result.append(" ");
                        proof {
                            reveal_strlit(" ");
                            assert(result@ =~= mid + render_cell(
                                self@[cell_idx(i as int, j as int)],
                            ));
                        }
                    },
                }
                proof {
                    assert(result@ =~= base + render_row_upto(self@, i as int, j as int + 1));
                }
                j += 1;
            }
            result.append("\n");
            proof {
                reveal_strlit("\n");
                assert(result@ =~= base + render_row(self@, i as int));
                assert(result@ =~= render_upto(self@, i as int + 1));
            }
            i += 1;
        }
        result
    }
}

// ---------------------------------------------------------------------------
// The plain row representation, and the rendered form.
// ---------------------------------------------------------------------------

/// The views of a vector of rows.
pub open spec fn rows_view(cells: Seq<Vec<Option<i8>>>) -> Seq<Seq<Option<i8>>> {
    cells.map_values(|v: Vec<Option<i8>>| v@)
}

/// The cells of a grid as 9 rows of 9.
pub open spec fn grid_rows(g: Seq<Option<i8>>) -> Seq<Seq<Option<i8>>> {
    Seq::new(9, |r: int| Seq::new(9, |c: int| g[cell_idx(r, c)]))
}

/// The flat grid read back from 9 rows of 9.
pub open spec fn rows_grid(rows: Seq<Seq<Option<i8>>>) -> Seq<Option<i8>> {
    Seq::new(81, |i: int| rows[i / 9][i % 9])
}

/// Rows that read back into a well-formed grid: 9 rows of 9 cells, each
/// empty or a digit 1..=9.
pub open spec fn rows_wf(rows: Seq<Seq<Option<i8>>>) -> bool {
    &&& rows.len() == 9
    &&& forall|r: int| 0 <= r < 9 ==> (#[trigger] rows[r]).len() == 9
    &&& forall|r: int, c: int| 0 <= r < 9 && 0 <= c < 9 ==> cell_ok(#[trigger] rows[r][c])
}

/// Round trip: the rows written out for a well-formed grid are themselves
/// well-formed, and reading them back yields the same grid, cell for cell.
pub proof fn lemma_rows_round_trip(g: Seq<Option<i8>>)
    requires
        grid_wf(g),
    ensures
        rows_wf(grid_rows(g)),
        rows_grid(grid_rows(g)) == g,
{
    assert forall|i: int| 0 <= i < 81 implies #[trigger] rows_grid(grid_rows(g))[i] == g[i] by {
        assert(cell_idx(i / 9, i % 9) == i);
    }
    assert(rows_grid(grid_rows(g)) =~= g);
}

/// Placing the same value at the same position twice (`Board::new`, whose
/// result is `self@.update(pos.idx(), num)`, applied twice) gives exactly
/// the grid that one placement gives.
pub proof fn lemma_place_idempotent(g: Seq<Option<i8>>, pos: Position, num: Option<i8>)
    requires
        pos.wf(),
        g.len() == 81,
    ensures
        g.update(pos.idx(), num).update(pos.idx(), num) == g.update(pos.idx(), num),
{
    assert(g.update(pos.idx(), num).update(pos.idx(), num) =~= g.update(pos.idx(), num));
}

/// The character printed for a digit.
pub open spec fn digit_char(v: i8) -> char {
    if v == 1 {
        '1'
    } else if v == 2 {
        '2'
    } else if v == 3 {
        '3'
    } else if v == 4 {
        '4'
    } else if v == 5 {
        '5'
    } else if v == 6 {
        '6'
    } else if v == 7 {
        '7'
    } else if v == 8 {
        '8'
    } else {
        '9'
    }
}

/// The two characters printed for one cell: its digit, or a blank for an
/// empty cell, then a space.
pub open spec fn render_cell(c: Option<i8>) -> Seq<char> {
    match c {
        None => seq![' ', ' '],
        Some(v) => seq![digit_char(v), ' '],
    }
}

/// The separator line printed before rows 3 and 6.
pub open spec fn sep_line() -> Seq<char> {
    "- - - + - - - + - - -\n"@
}

/// The characters of row `r` up to column `j`, with `| ` before columns 3
/// and 6.
pub open spec fn render_row_upto(g: Seq<Option<i8>>, r: int, j: int) -> Seq<char>
    decreases j,
{
    if j <= 0 {
        Seq::empty()
    } else {
        render_row_upto(g, r, j - 1) + (if j - 1 == 3 || j - 1 == 6 {
            seq!['|', ' ']
        } else {
            Seq::empty()
        }) + render_cell(g[cell_idx(r, j - 1)])
    }
}

/// One full rendered row, newline-terminated.
pub open spec fn render_row(g: Seq<Option<i8>>, r: int) -> Seq<char> {
    render_row_upto(g, r, 9).push('\n')
}

/// The rendered rows before row `r`, with the separator line before rows 3
/// and 6.
pub open spec fn render_upto(g: Seq<Option<i8>>, r: int) -> Seq<char>
    decreases r,
{
    if r <= 0 {
        Seq::empty()
    } else {
        render_upto(g, r - 1) + (if r - 1 == 3 || r - 1 == 6 {
            sep_line()
        } else {
            Seq::empty()
        }) + render_row(g, r - 1)
    }
}

/// The whole rendered grid.
pub open spec fn render_grid(g: Seq<Option<i8>>) -> Seq<char> {
    render_upto(g, 9)
}

/// The printed form of one digit.
fn digit_str(v: i8) -> (r: &'static str)
    requires
        1 <= v <= 9,
    ensures
        r@ == seq![digit_char(v)],
{
    let s: &'static str = match v {
        1 => "1",
        2 => "2",
        3 => "3",
        4 => "4",
        5 => "5",
        6 => "6",
        7 => "7",
        8 => "8",
        _ => "9",
    };
    proof {
        reveal_strlit("1");
        reveal_strlit("2");
        reveal_strlit("3");
        reveal_strlit("4");
        reveal_strlit("5");
        reveal_strlit("6");
        reveal_strlit("7");
        reveal_strlit("8");
        reveal_strlit("9");
        assert(s@ =~= seq![digit_char(v)]);
    }
    s
}

} // verus!
