use vstd::prelude::*;

verus! {

/// A cell coordinate on the 9x9 grid: `row` and `column` each lie in 0..9.
/// Positions are ordered row-major: all of row 0 first, then row 1, and so on.
#[derive(Debug, Clone, Copy, PartialEq, Eq, Structural)]
pub struct Position {
    pub column: i8,
    pub row: i8,
}

impl Position {
    /// Both coordinates lie on the 9x9 grid.
    pub open spec fn wf(self) -> bool {
        0 <= self.row < 9 && 0 <= self.column < 9
    }

    /// Row-major index of this position, in 0..81.
    pub open spec fn idx(self) -> int {
        self.row * 9 + self.column
    }

    /// The first position in row-major order: row 0, column 0.
    pub fn init() -> (r: Position)
        ensures
            r.wf(),
            r.idx() == 0,
    {
        Position { column: 0, row: 0 }
    }

    /// The row-major successor, or `None` at the last cell (8, 8).
    pub fn next(&self) -> (r: Option<Position>)
        requires
            self.wf(),
        ensures
            self.idx() == 80 ==> r is None,
            self.idx() < 80 ==> (r matches Some(p) && p.wf() && p.idx() == self.idx() + 1),
    {
        match (self.row, self.column) {
            (8, 8) => None,
            (row, 8) => Some(Position { row: row + 1, column: 0 }),
            (row, column) => Some(Position { row, column: column + 1 }),
        }
    }

    /// All 81 positions, in row-major order.
    pub fn get_all_positions() -> (r: Vec<Position>)
        ensures
            r@.len() == 81,
            forall|i: int| 0 <= i < 81 ==> (#[trigger] r@[i]).wf() && r@[i].idx() == i,
    {
        let mut all_positions: Vec<Position> = Vec::new();
        let mut position = Position::init();
        all_positions.push(position);
        loop
            invariant
                1 <= all_positions@.len() <= 81,
                position.wf(),
                position.idx() == all_positions@.len() - 1,
                forall|i: int|
                    0 <= i < all_positions@.len()
                        ==> (#[trigger] all_positions@[i]).wf() && all_positions@[i].idx() == i,
            ensures
                all_positions@.len() == 81,
                forall|i: int|
                    0 <= i < 81 ==> (#[trigger] all_positions@[i]).wf() && all_positions@[i].idx() == i,
            decreases 81 - all_positions@.len(),
        {
            match position.next() {
                Some(pos) => {
                    position = pos;
                    all_positions.push(position);
                }
                None => {
                    break;
                }
            }
        }
        all_positions
    }
}

} // verus!
