use vstd::prelude::*;
use crate::board::{
    Board, cell_idx, completes, empty_grid, grid_complete, grid_consistent, grid_extends, grid_wf,
    lemma_clear_preserves_consistent, lemma_one_hole_determined,
};
use crate::position::Position;
use crate::rng::{next_seed, rng_from_entropy, rng_from_seed, shuffle};
use crate::search::{frontier_reaches, lemma_reaches_subrange, Tree};
use rand::rngs::StdRng;

verus! {

/// A fully filled grid that meets every row, column and box constraint.
pub open spec fn solved_grid(g: Seq<Option<i8>>) -> bool {
    grid_wf(g) && grid_complete(g) && grid_consistent(g)
}

/// `s` is a full, well-formed board extending `g`, and meets every
/// constraint whenever `g`'s own clues do.
pub open spec fn solved_from(g: Seq<Option<i8>>, s: Seq<Option<i8>>) -> bool {
    grid_wf(s) && grid_complete(s) && grid_extends(g, s) && (grid_consistent(g)
        ==> grid_consistent(s))
}

/// The result of a best-effort solve: either a completion of `g` or, when
/// none exists, `g` itself.
pub open spec fn solved_or_same(g: Seq<Option<i8>>, s: Seq<Option<i8>>) -> bool {
    ||| s == g
    ||| solved_from(g, s)
}

/// Every cell of `c` either keeps its value from `g` or is cleared.
pub open spec fn carved_from(g: Seq<Option<i8>>, c: Seq<Option<i8>>) -> bool {
    &&& c.len() == 81
    &&& forall|i: int| 0 <= i < 81 ==> (#[trigger] c[i]) == g[i] || c[i] is None
}

/// One completion of `board`, or `None` exactly when `board` has no
/// completion at all. A returned board is full, meets every constraint the
/// input's clues allow, and keeps every clue of the input.
pub fn solve_board(board: Board) -> (r: Option<Board>)
    requires
        board.wf(),
    ensures
        r matches Some(b) ==> grid_wf(b@) && grid_complete(b@) && grid_extends(board@, b@) && (
        grid_consistent(board@) ==> grid_consistent(b@)),
        r is None ==> (forall|c: Seq<Option<i8>>| !completes(board@, c)),
{
    let mut tree = Tree::new(board);
    let ghost n0 = tree.nodes();
    let r = tree.next_board();
    proof {
        if r is None {
            assert forall|c: Seq<Option<i8>>| !completes(board@, c) by {
                if completes(board@, c) {
                    assert(frontier_reaches(n0, c));
                    assert(!frontier_reaches(n0, c));
                }
            }
        }
    }
    r
}

/// Solves each board in turn, keeping a board unchanged only when it has
/// no completion: solving is best effort, not an error.
pub fn solve_all(boards: &Vec<Board>) -> (r: Vec<Board>)
    requires
        forall|i: int| 0 <= i < boards@.len() ==> (#[trigger] boards@[i]).wf(),
    ensures
        r@.len() == boards@.len(),
        forall|i: int| 0 <= i < boards@.len() ==> solved_or_same(boards@[i]@, (#[trigger] r@[i])@),
        forall|i: int|
            0 <= i < boards@.len() ==> ((exists|c: Seq<Option<i8>>|
                completes(boards@[i]@, c)) ==> solved_from(boards@[i]@, (#[trigger] r@[i])@)),
{
    let mut solved: Vec<Board> = Vec::new();
    let mut i: usize = 0;
    while i < boards.len()
        invariant
            i <= boards@.len(),
            solved@.len() == i,
            forall|k: int| 0 <= k < boards@.len() ==> (#[trigger] boards@[k]).wf(),
            forall|k: int| 0 <= k < i ==> solved_or_same(boards@[k]@, (#[trigger] solved@[k])@),
            forall|k: int|
                0 <= k < i ==> ((exists|c: Seq<Option<i8>>| completes(boards@[k]@, c))
                    ==> solved_from(boards@[k]@, (#[trigger] solved@[k])@)),
        decreases boards@.len() - i,
    {
        let b = boards[i].clone();
        match solve_board(b) {
            Some(board) => solved.push(board),
            None => solved.push(boards[i].clone()),
        }
        i += 1;
    }
    solved
}

/// 9 raised to the `k`th power.
pub open spec fn pow9(k: nat) -> nat
    decreases k,
{
    if k == 0 {
        1
    } else {
        9 * pow9((k - 1) as nat)
    }
}

proof fn lemma_pow9_grows(k: nat)
    ensures
        pow9(k) > k,
    decreases k,
{
    if k > 0 {
        lemma_pow9_grows((k - 1) as nat);
    }
}

/// The smallest depth (at least 1) whose branching still permits
/// `num_boards` distinct draws: the least `k >= 1` with `9^k >= num_boards`.
fn keep_depth(num_boards: usize) -> (r: usize)
    ensures
        r >= 1,
        pow9(r as nat) >= num_boards,
        r == 1 || pow9((r - 1) as nat) < num_boards,
{
    let mut to_keep: usize = 1;
    let mut p: usize = 9;
    proof {
        assert(pow9(0) == 1);
        assert(pow9(1) == 9);
    }
    while p < num_boards
        invariant
            to_keep >= 1,
            p == pow9(to_keep as nat),
            to_keep < p,
            to_keep == 1 || pow9((to_keep - 1) as nat) < num_boards,
        decreases num_boards - to_keep,
    {
        if p > usize::MAX / 9 {
            proof {
                assert(9 * p > usize::MAX >= num_boards) by (nonlinear_arith)
                    requires
                        p > usize::MAX / 9,
                        num_boards <= usize::MAX,
                ;
                assert(pow9((to_keep + 1) as nat) == 9 * pow9(to_keep as nat));
            }
            return to_keep + 1;
        }
        let ghost old_p = p as nat;
        p = p * 9;
        to_keep = to_keep + 1;
        proof {
            assert(pow9(to_keep as nat) == 9 * old_p);
            lemma_pow9_grows(to_keep as nat);
        }
    }
    to_keep
}

/// Draws up to `num_boards` completions from `tree`, truncating the
/// frontier between draws so that successive draws differ near the root.
/// A result shorter than `num_boards` reports a shortfall: the frontier ran
/// out of completions first.
pub fn solved_batch(tree: &mut Tree, num_boards: usize) -> (r: Vec<Board>)
    requires
        old(tree).inv(),
        grid_consistent(old(tree).root_grid()),
    ensures
        final(tree).inv(),
        final(tree).root_grid() == old(tree).root_grid(),
        r@.len() <= num_boards,
        forall|i: int|
            0 <= i < r@.len() ==> solved_grid((#[trigger] r@[i])@) && grid_extends(
                old(tree).root_grid(),
                r@[i]@,
            ),
        // A frontier at which every completion of the root is still open
        // yields at least one board when one is asked for and one exists:
        // the first draw cannot fall short.
        (num_boards >= 1 && (exists|c: Seq<Option<i8>>| completes(old(tree).root_grid(), c)) && (
        forall|c: Seq<Option<i8>>|
            completes(old(tree).root_grid(), c) ==> frontier_reaches(old(tree).nodes(), c)))
            ==> r@.len() >= 1,
        // The search never hands out the same completion twice, so the
        // boards of one batch are pairwise distinct.
        forall|i: int, j: int|
            0 <= i < j < r@.len() ==> (#[trigger] r@[i])@ != (#[trigger] r@[j])@,
        // A shortfall happens only because the frontier ran out of
        // completions: it is then left exhausted.
        r@.len() < num_boards ==> final(tree).nodes().len() == 0,
{
    let to_keep = keep_depth(num_boards);
    let mut boards: Vec<Board> = Vec::new();
    let mut done = false;
    let mut i: usize = 0;
    while i < num_boards && !done
        invariant
            tree.inv(),
            tree.root_grid() == old(tree).root_grid(),
            grid_consistent(old(tree).root_grid()),
            i <= num_boards,
            boards@.len() <= i,
            i == 0 ==> tree.nodes() == old(tree).nodes(),
            i == 0 ==> !done,
            !done ==> boards@.len() == i,
            done ==> tree.nodes().len() == 0,
            (i > 0 && (exists|c: Seq<Option<i8>>| completes(old(tree).root_grid(), c)) && (
            forall|c: Seq<Option<i8>>|
                completes(old(tree).root_grid(), c) ==> frontier_reaches(old(tree).nodes(), c)))
                ==> boards@.len() >= 1,
            forall|k: int|
                0 <= k < boards@.len() ==> solved_grid((#[trigger] boards@[k])@) && grid_extends(
                    old(tree).root_grid(),
                    boards@[k]@,
                ),
            forall|k: int|
                0 <= k < boards@.len() ==> !frontier_reaches(
                    tree.nodes(),
                    (#[trigger] boards@[k])@,
                ),
            forall|k1: int, k2: int|
                0 <= k1 < k2 < boards@.len() ==> (#[trigger] boards@[k1])@ != (
                #[trigger] boards@[k2])@,
        decreases num_boards - i,
    {
        let ghost nc = tree.nodes();
        match tree.next_board() {
            Some(b) => {
                let ghost bv = b@;
                proof {
                    // Boards already drawn are open nowhere, so the new
                    // draw differs from each of them.
                    assert forall|k: int| 0 <= k < boards@.len() implies !frontier_reaches(
                        tree.nodes(),
                        (#[trigger] boards@[k])@,
                    ) by {
                        if frontier_reaches(tree.nodes(), boards@[k]@) {
                            assert(frontier_reaches(nc, boards@[k]@));
                        }
                    }
                    assert(frontier_reaches(nc, bv));
                    assert forall|k: int| 0 <= k < boards@.len() implies (#[trigger] boards@[k])@
                        != bv by {
                        if boards@[k]@ == bv {
                            assert(frontier_reaches(nc, boards@[k]@));
                        }
                    }
                    assert(!frontier_reaches(tree.nodes(), bv));
                }
                boards.push(b);
                let ghost np = tree.nodes();
                tree.pop(to_keep);
                proof {
                    assert forall|k: int| 0 <= k < boards@.len() implies !frontier_reaches(
                        tree.nodes(),
                        (#[trigger] boards@[k])@,
                    ) by {
                        if frontier_reaches(tree.nodes(), boards@[k]@) {
                            if np.len() > to_keep {
                                assert(tree.nodes() == np.subrange(0, to_keep as int));
                                lemma_reaches_subrange(np, to_keep as int, boards@[k]@);
                            }
                            assert(frontier_reaches(np, boards@[k]@));
                        }
                    }
                }
            },
            None => {
                proof {
                    if i == 0 {
                        assert forall|c: Seq<Option<i8>>|
                            completes(old(tree).root_grid(), c) implies !frontier_reaches(
                            old(tree).nodes(),
                            c,
                        ) by {
                            assert(!frontier_reaches(nc, c));
                        }
                    }
                    assert forall|k: int| 0 <= k < boards@.len() implies !frontier_reaches(
                        tree.nodes(),
                        (#[trigger] boards@[k])@,
                    ) by {
                        if frontier_reaches(tree.nodes(), boards@[k]@) {
                            assert(frontier_reaches(nc, boards@[k]@));
                        }
                    }
                }
                done = true;
            },
        }
        i += 1;
    }
    boards
}

/// Up to `num_boards` solved boards drawn from one search over the empty
/// grid. Each returned board is full and meets every constraint; a result
/// shorter than `num_boards` reports a shortfall, and even that is never
/// empty as long as the empty grid has a completion at all.
pub fn generate_solved_boards(num_boards: usize) -> (r: Vec<Board>)
    ensures
        r@.len() <= num_boards,
        forall|i: int| 0 <= i < r@.len() ==> solved_grid((#[trigger] r@[i])@),
        (num_boards >= 1 && (exists|c: Seq<Option<i8>>| completes(empty_grid(), c))) ==> r@.len()
            >= 1,
        forall|i: int, j: int|
            0 <= i < j < r@.len() ==> (#[trigger] r@[i])@ != (#[trigger] r@[j])@,
{
    let mut tree = Tree::init();
    solved_batch(&mut tree, num_boards)
}

/// Carves a puzzle out of `init_board` with choices drawn from `rng`:
/// visits every position in a random order and clears a cell only when the
/// board would still have exactly one completion, probed by searching for a
/// second one.
fn carve(init_board: Board, rng: &mut StdRng) -> (r: Board)
    requires
        init_board.wf(),
    ensures
        r.wf(),
        carved_from(init_board@, r@),
        grid_consistent(init_board@) ==> grid_consistent(r@),
        // Carving a solved grid keeps it uniquely solvable: the one
        // completion of the puzzle is the grid it was carved from.
        grid_complete(init_board@) && grid_consistent(init_board@) ==> (forall|
            c: Seq<Option<i8>>,
        |
            completes(r@, c) ==> c == init_board@),
        // At least one cell of a solved grid is always carved away: with a
        // single cell cleared the grid stays determined, so the first
        // removal tried is kept.
        grid_complete(init_board@) && grid_consistent(init_board@) ==> !grid_complete(r@),
{
    let mut all_positions = Position::get_all_positions();
    let ghost before = all_positions@;
    shuffle(&mut all_positions, rng);
    proof {
        before.to_multiset_ensures();
        all_positions@.to_multiset_ensures();
        assert forall|k: int| 0 <= k < all_positions@.len() implies (
        #[trigger] all_positions@[k]).wf() by {
            assert(all_positions@.contains(all_positions@[k]));
            assert(all_positions@.to_multiset().count(all_positions@[k]) > 0);
            assert(before.to_multiset().count(all_positions@[k]) > 0);
            assert(before.contains(all_positions@[k]));
        }
    }
    let mut board: Board = init_board;
    while all_positions.len() > 0
        invariant
            init_board.wf(),
            board.wf(),
            carved_from(init_board@, board@),
            grid_consistent(init_board@) ==> grid_consistent(board@),
            grid_complete(init_board@) && grid_consistent(init_board@) ==> (forall|
                c: Seq<Option<i8>>,
            |
                completes(board@, c) ==> c == init_board@),
            grid_complete(init_board@) && grid_consistent(init_board@) ==> (all_positions@.len()
                < 81 ==> !grid_complete(board@)),
            forall|k: int| 0 <= k < all_positions@.len() ==> (#[trigger] all_positions@[k]).wf(),
        decreases all_positions@.len(),
    {
        let pos = all_positions.pop().unwrap();
        proof {
            assert(pos.wf());
        }
        let new_board = board.new(&pos, None);
        proof {
            let row = pos.row as int;
            let col = pos.column as int;
            assert(new_board@ == board@.update(cell_idx(row, col), None));
            if grid_consistent(init_board@) {
                lemma_clear_preserves_consistent(board@, row, col);
            }
            assert forall|i: int| 0 <= i < 81 implies (#[trigger] new_board@[i]) == init_board@[i]
                || new_board@[i] is None by {
                if i != cell_idx(row, col) {
                    assert(new_board@[i] == board@[i]);
                }
            }
        }
        let mut tree = Tree::new_seeded(new_board.clone(), next_seed(rng));
        let ghost n0 = tree.nodes();
        match tree.next_board() {
            Some(s1) => {
                let ghost s1v = s1@;
                let ghost n1 = tree.nodes();
                match tree.next_board() {
                    Some(s2) => {
                        // A second completion exists: clearing this cell
                        // would make the puzzle ambiguous, so keep it.
                        proof {
                            if grid_complete(init_board@) && grid_consistent(init_board@)
                                && grid_complete(board@) {
                                // Impossible on a full board: a grid with one
                                // hole has one completion, yet a second draw
                                // never repeats the first.
                                let row = pos.row as int;
                                let col = pos.column as int;
                                assert(completes(new_board@, s1v));
                                assert(completes(new_board@, s2@));
                                assert(frontier_reaches(n1, s2@));
                                assert(!frontier_reaches(n1, s1v));
                                assert forall|i: int|
                                    0 <= i < 81 && i != cell_idx(row, col) implies (
                                #[trigger] new_board@[i]) is Some by {
                                    assert(new_board@[i] == board@[i]);
                                }
                                lemma_one_hole_determined(new_board@, row, col, s1v, s2@);
                                assert(false);
                            }
                        }
                    },
                    None => {
                        proof {
                            if grid_complete(init_board@) && grid_consistent(init_board@) {
                                // The solved input still completes the
                                // cleared board.
                                assert forall|i: int|
                                    0 <= i < 81 && (#[trigger] new_board@[i]) is Some implies
                                    init_board@[i] == new_board@[i] by {
                                    assert(new_board@[i] == board@[i]);
                                }
                                assert(completes(new_board@, init_board@));
                                // Any completion but the first draw stayed
                                // open, and the second draw found nothing:
                                // the first draw is the sole completion, and
                                // it is the solved input.
                                assert forall|c: Seq<Option<i8>>|
                                    completes(new_board@, c) implies c == init_board@ by {
                                    if c != s1v {
                                        assert(frontier_reaches(n0, c));
                                        assert(frontier_reaches(n1, c));
                                        assert(!frontier_reaches(n1, c));
                                    }
                                    if init_board@ != s1v {
                                        assert(frontier_reaches(n0, init_board@));
                                        assert(frontier_reaches(n1, init_board@));
                                        assert(!frontier_reaches(n1, init_board@));
                                    }
                                }
                            }
                        }
                        proof {
                            assert(new_board@[cell_idx(pos.row as int, pos.column as int)]
                                is None);
                            assert(!grid_complete(new_board@));
                        }
                        board = new_board;
                    },
                }
            },
            None => {
                // No completion at all: clearing this cell is not sound
                // either, so keep it.
                proof {
                    if grid_complete(init_board@) && grid_consistent(init_board@)
                        && grid_complete(board@) {
                        // Impossible: the board itself still completes the
                        // cleared grid, and every completion was open at the
                        // freshly built probe frontier.
                        let row = pos.row as int;
                        let col = pos.column as int;
                        assert forall|i: int|
                            0 <= i < 81 && (#[trigger] new_board@[i]) is Some implies board@[i]
                            == new_board@[i] by {
                            assert(i != cell_idx(row, col));
                            assert(new_board@[i] == board@[i]);
                        }
                        assert(completes(new_board@, board@));
                        assert(frontier_reaches(n0, board@));
                        assert(!frontier_reaches(n0, board@));
                        assert(false);
                    }
                }
            },
        }
    }
    board
}

/// Carves a puzzle out of `init_board`, drawing the removal order and the
/// probe searches from entropy.
pub fn generate_board(init_board: Board) -> (r: Board)
    requires
        init_board.wf(),
    ensures
        r.wf(),
        carved_from(init_board@, r@),
        grid_consistent(init_board@) ==> grid_consistent(r@),
        grid_complete(init_board@) && grid_consistent(init_board@) ==> (forall|
            c: Seq<Option<i8>>,
        |
            completes(r@, c) ==> c == init_board@),
        grid_complete(init_board@) && grid_consistent(init_board@) ==> !grid_complete(r@),
{
    let mut rng = rng_from_entropy();
    carve(init_board, &mut rng)
}

/// Carves a puzzle out of `init_board` as a function of `seed` alone: the
/// same board and seed always give the same puzzle.
pub fn generate_board_seeded(init_board: Board, seed: u64) -> (r: Board)
    requires
        init_board.wf(),
    ensures
        r.wf(),
        carved_from(init_board@, r@),
        grid_consistent(init_board@) ==> grid_consistent(r@),
        grid_complete(init_board@) && grid_consistent(init_board@) ==> (forall|
            c: Seq<Option<i8>>,
        |
            completes(r@, c) ==> c == init_board@),
        grid_complete(init_board@) && grid_consistent(init_board@) ==> !grid_complete(r@),
{
    let mut rng = rng_from_seed(seed);
    carve(init_board, &mut rng)
}

} // verus!
