use vstd::prelude::*;
use crate::board::{
    Board, candidate_ok, cell_idx, cell_ok, completes, empty_grid, filled_below, grid_complete,
    grid_consistent, grid_extends, grid_wf, lemma_completion_candidate,
    lemma_completion_of_complete, lemma_empty_grid_consistent, lemma_place_preserves_consistent,
    placement_ok,
};
use crate::position::Position;
use crate::rng::{rng_from_entropy, rng_from_seed};
use rand::rngs::StdRng;

verus! {

// ---------------------------------------------------------------------------
// Termination measure for the depth-first search.
//
// Each stacked node weighs (candidates left + 1) * 11^(81 - its index).
// Consuming a candidate at depth d frees one weight-11^(81-d) unit, which
// pays for any child node pushed at depth d + 1: a child carries at most
// ten units of the next-smaller power. So every step that does not return
// a completed board strictly shrinks the total weight of the stack.
// ---------------------------------------------------------------------------

spec fn pow11(k: nat) -> nat
    decreases k,
{
    if k == 0 {
        1
    } else {
        11 * pow11((k - 1) as nat)
    }
}

proof fn lemma_pow11_pos(k: nat)
    ensures
        pow11(k) >= 1,
    decreases k,
{
    if k > 0 {
        lemma_pow11_pos((k - 1) as nat);
    }
}

spec fn node_weight(n: Node) -> nat {
    (n.spec_candidates().len() + 1) * pow11((81 - n.spec_position().idx()) as nat)
}

spec fn stack_measure(s: Seq<Node>) -> nat
    decreases s.len(),
{
    if s.len() == 0 {
        0
    } else {
        stack_measure(s.drop_last()) + node_weight(s.last())
    }
}

proof fn lemma_stack_measure_push(s: Seq<Node>, n: Node)
    ensures
        stack_measure(s.push(n)) == stack_measure(s) + node_weight(n),
{
    assert(s.push(n).drop_last() =~= s);
    assert(s.push(n).last() == n);
}

// ---------------------------------------------------------------------------
// A search node: one unit of work at one position.
// ---------------------------------------------------------------------------

/// One step of the search: the position to fill, the board as of entering
/// this node, and the candidate digits not yet tried there.
pub struct Node {
    position: Position,
    board: Board,
    valid: Vec<i8>,
}

impl Node {
    /// The position this node fills.
    pub closed spec fn spec_position(&self) -> Position {
        self.position
    }

    /// The grid as of entering this node.
    pub closed spec fn spec_board(&self) -> Seq<Option<i8>> {
        self.board@
    }

    /// The candidate digits not yet tried, last tried first.
    pub closed spec fn spec_candidates(&self) -> Seq<i8> {
        self.valid@
    }

    /// A node is sound for a search rooted at `root`: its board is a
    /// well-formed extension of `root` that fills every position before its
    /// own, keeps `root`'s consistency, and offers only candidate digits
    /// that respect the constraints.
    pub open spec fn wf(self, root: Seq<Option<i8>>) -> bool {
        &&& self.spec_position().wf()
        &&& grid_wf(self.spec_board())
        &&& grid_extends(root, self.spec_board())
        &&& filled_below(self.spec_board(), self.spec_position().idx())
        &&& (grid_consistent(root) ==> grid_consistent(self.spec_board()))
        &&& self.spec_candidates().len() <= 9
        &&& self.spec_candidates().no_duplicates()
        &&& forall|k: int|
            0 <= k < self.spec_candidates().len() ==> candidate_ok(
                self.spec_board(),
                self.spec_position().row as int,
                self.spec_position().column as int,
                #[trigger] self.spec_candidates()[k],
            )
    }

    /// A node over `board` at `pos`, with the candidate digits for `pos`
    /// drawn in an order taken from `rng`.
    pub fn new(board: Board, pos: Position, rng: &mut StdRng) -> (r: Node)
        requires
            board.wf(),
            pos.wf(),
        ensures
            r.spec_position() == pos,
            r.spec_board() == board@,
            r.spec_candidates().no_duplicates(),
            r.spec_candidates().len() <= 9,
            forall|d: i8|
                r.spec_candidates().contains(d) <==> candidate_ok(
                    board@,
                    pos.row as int,
                    pos.column as int,
                    d,
                ),
            forall|k: int|
                0 <= k < r.spec_candidates().len() ==> candidate_ok(
                    board@,
                    pos.row as int,
                    pos.column as int,
                    #[trigger] r.spec_candidates()[k],
                ),
    {
        let valid = board.get_valid(&pos, rng);
        proof {
            assert forall|k: int| 0 <= k < valid@.len() implies candidate_ok(
                board@,
                pos.row as int,
                pos.column as int,
                #[trigger] valid@[k],
            ) by {
                assert(valid@.contains(valid@[k]));
            }
        }
        Node { position: pos, board, valid }
    }

    /// Takes the next untried candidate and returns the board with it placed
    /// at this node's position, or `None` when every candidate was tried.
    pub fn next_board(&mut self) -> (r: Option<Board>)
        requires
            old(self).spec_position().wf(),
            grid_wf(old(self).spec_board()),
            forall|k: int|
                0 <= k < old(self).spec_candidates().len() ==> candidate_ok(
                    old(self).spec_board(),
                    old(self).spec_position().row as int,
                    old(self).spec_position().column as int,
                    #[trigger] old(self).spec_candidates()[k],
                ),
        ensures
            final(self).spec_position() == old(self).spec_position(),
            final(self).spec_board() == old(self).spec_board(),
            old(self).spec_candidates().len() == 0 ==> r is None && final(self).spec_candidates()
                == old(self).spec_candidates(),
            old(self).spec_candidates().len() > 0 ==> final(self).spec_candidates() == old(
                self,
            ).spec_candidates().drop_last() && (r matches Some(b) && b@ == old(
                self,
            ).spec_board().update(
                old(self).spec_position().idx(),
                Some(old(self).spec_candidates().last()),
            )),
    {
        match self.valid.pop() {
            Some(num) => {
                proof {
                    let g = self.board@;
                    let row = self.position.row as int;
                    let col = self.position.column as int;
                    let k = old(self).spec_candidates().len() - 1;
                    assert(candidate_ok(g, row, col, old(self).spec_candidates()[k]));
                    assert(0 <= cell_idx(row, col) < 81);
                    assert(cell_ok(g[cell_idx(row, col)]));
                    assert(1 <= num <= 9);
                    assert(self.valid@ =~= old(self).spec_candidates().drop_last());
                }
                Some(self.board.new(&self.position, Some(num)))
            },
            None => None,
        }
    }
}

/// Completion `c` is open at node `n`: it extends the node's board and
/// fills the node's position with a digit the node has not tried yet.
pub open spec fn node_reaches(n: Node, c: Seq<Option<i8>>) -> bool {
    &&& grid_extends(n.spec_board(), c)
    &&& (c[n.spec_position().idx()] matches Some(d) && n.spec_candidates().contains(d))
}

/// Completion `c` is open at some stacked node: the search can still find it.
pub open spec fn frontier_reaches(s: Seq<Node>, c: Seq<Option<i8>>) -> bool {
    exists|k: int| 0 <= k < s.len() && node_reaches(#[trigger] s[k], c)
}

/// `m` is `n` after one candidate was consumed: same position, same board,
/// the last untried candidate removed.
pub open spec fn advanced(n: Node, m: Node) -> bool {
    &&& m.spec_position() == n.spec_position()
    &&& m.spec_board() == n.spec_board()
    &&& m.spec_candidates() == n.spec_candidates().drop_last()
}

/// The stack is a single search path: each deeper board extends every
/// shallower one, and the cell a node works on is, one level deeper,
/// filled with a digit that node will never try again.
pub open spec fn chained(s: Seq<Node>) -> bool {
    &&& (forall|k: int, l: int|
        0 <= k < l < s.len() ==> grid_extends(
            (#[trigger] s[k]).spec_board(),
            (#[trigger] s[l]).spec_board(),
        ))
    &&& (forall|k: int|
        0 <= k < s.len() - 1 ==> ((#[trigger] s[k + 1]).spec_board()[s[k].spec_position().idx()] matches Some(
            d,
        ) && !s[k].spec_candidates().contains(d)))
}

/// A completion open at a truncated stack was open at the full stack.
pub proof fn lemma_reaches_subrange(s: Seq<Node>, n: int, c: Seq<Option<i8>>)
    requires
        0 <= n <= s.len(),
        frontier_reaches(s.subrange(0, n), c),
    ensures
        frontier_reaches(s, c),
{
    let k = choose|k: int|
        0 <= k < s.subrange(0, n).len() && node_reaches(#[trigger] s.subrange(0, n)[k], c);
    assert(s.subrange(0, n)[k] == s[k]);
    assert(node_reaches(s[k], c));
}

/// A freshly built frontier over `g`: exactly one node, at the first
/// position, over `g` unmodified, offering exactly the candidates of
/// (0, 0); every completion of `g` is open at it.
pub open spec fn fresh_over(t: Tree, g: Seq<Option<i8>>) -> bool {
    &&& t.inv()
    &&& t.root_grid() == g
    &&& t.nodes().len() == 1
    &&& t.nodes()[0].spec_board() == g
    &&& t.nodes()[0].spec_position().idx() == 0
    &&& (forall|d: i8| t.nodes()[0].spec_candidates().contains(d) <==> candidate_ok(g, 0, 0, d))
    &&& (forall|c: Seq<Option<i8>>| completes(g, c) ==> frontier_reaches(t.nodes(), c))
}

// ---------------------------------------------------------------------------
// The search frontier: a resumable, truncatable depth-first search.
// ---------------------------------------------------------------------------

/// An explicit stack of search nodes: the path from the root of the search
/// to the deepest open position, each node still holding its untried
/// candidates. The frontier persists across calls, so successive calls to
/// `next_board` enumerate further completions, and `pop` can forget deep
/// exploration between draws.
pub struct Tree {
    tree: Vec<Node>,
    rng: StdRng,
    root: Ghost<Seq<Option<i8>>>,
}

impl Tree {
    /// The stacked nodes, deepest last.
    pub closed spec fn nodes(&self) -> Seq<Node> {
        self.tree@
    }

    /// The grid this search started from.
    pub closed spec fn root_grid(&self) -> Seq<Option<i8>> {
        self.root@
    }

    /// Every stacked node is sound for the root grid, and the stack is one
    /// search path.
    pub open spec fn inv(&self) -> bool {
        &&& grid_wf(self.root_grid())
        &&& (forall|k: int|
            0 <= k < self.nodes().len() ==> (#[trigger] self.nodes()[k]).wf(self.root_grid()))
        &&& chained(self.nodes())
    }

    /// A frontier over the empty grid.
    pub fn init() -> (r: Tree)
        ensures
            r.inv(),
            r.root_grid() == empty_grid(),
            grid_consistent(r.root_grid()),
            fresh_over(r, empty_grid()),
    {
        proof {
            lemma_empty_grid_consistent();
        }
        Tree::new(Board::init())
    }

    /// A frontier over `board`, with candidate order drawn from entropy.
    pub fn new(board: Board) -> (r: Tree)
        requires
            board.wf(),
        ensures
            r.inv(),
            r.root_grid() == board@,
            fresh_over(r, board@),
    {
        let rng = rng_from_entropy();
        Tree::with_rng(board, rng)
    }

    /// A frontier over `board` whose candidate order is a function of
    /// `seed` alone, for reproducible runs.
    pub fn new_seeded(board: Board, seed: u64) -> (r: Tree)
        requires
            board.wf(),
        ensures
            r.inv(),
            r.root_grid() == board@,
            fresh_over(r, board@),
    {
        let rng = rng_from_seed(seed);
        Tree::with_rng(board, rng)
    }

    fn with_rng(board: Board, rng: StdRng) -> (r: Tree)
        requires
            board.wf(),
        ensures
            r.inv(),
            r.root_grid() == board@,
            fresh_over(r, board@),
    {
        let ghost root = board@;
        let mut rng = rng;
        let node = Node::new(board, Position::init(), &mut rng);
        let mut tree: Vec<Node> = Vec::new();
        tree.push(node);
        proof {
            assert(node.wf(root));
        }
        let t = Tree { tree, rng, root: Ghost(root) };
        proof {
            assert(t.nodes().len() == 1);
            assert(t.nodes()[0] == node);
            assert forall|c: Seq<Option<i8>>| completes(root, c) implies frontier_reaches(
                t.nodes(),
                c,
            ) by {
                assert(cell_idx(0, 0) == 0);
                assert(c[0] is Some);
                let e = c[0]->Some_0;
                lemma_completion_candidate(root, c, 0, 0);
                assert(candidate_ok(root, 0, 0, e));
                assert(node.spec_candidates().contains(e));
                assert(node_reaches(t.nodes()[0], c));
            }
        }
        t
    }

    /// Resumes the search and returns the next completed board: a full,
    /// constraint-respecting extension of the root grid. Returns `None`
    /// when the frontier is exhausted: no further completion is reachable
    /// from its current state.
    pub fn next_board(&mut self) -> (r: Option<Board>)
        requires
            old(self).inv(),
        ensures
            final(self).inv(),
            final(self).root_grid() == old(self).root_grid(),
            r matches Some(b) ==> grid_wf(b@) && grid_complete(b@) && grid_extends(
                old(self).root_grid(),
                b@,
            ) && (grid_consistent(old(self).root_grid()) ==> grid_consistent(b@)),
            // Exhaustion: a `None` means no completion of the root grid was
            // still open at any stacked node; the stack is left empty, so
            // every further call returns `None` as well.
            r is None ==> final(self).nodes().len() == 0,
            old(self).nodes().len() == 0 ==> r is None,
            r is None ==> (forall|c: Seq<Option<i8>>|
                completes(old(self).root_grid(), c) ==> !frontier_reaches(old(self).nodes(), c)),
            // Every completion open before the call other than the returned
            // board is still open after it.
            r matches Some(b) ==> (forall|c: Seq<Option<i8>>|
                completes(old(self).root_grid(), c) && frontier_reaches(old(self).nodes(), c) && c
                    != b@ ==> frontier_reaches(final(self).nodes(), c)),
            // A returned board was open before the call and is open nowhere
            // after it, and nothing becomes open that was not: one frontier
            // never hands out the same completion twice.
            r matches Some(b) ==> frontier_reaches(old(self).nodes(), b@) && !frontier_reaches(
                final(self).nodes(),
                b@,
            ),
            forall|c: Seq<Option<i8>>|
                #![trigger frontier_reaches(final(self).nodes(), c)]
                frontier_reaches(final(self).nodes(), c) ==> frontier_reaches(
                    old(self).nodes(),
                    c,
                ),
    {
        loop
            invariant
                self.inv(),
                self.root_grid() == old(self).root_grid(),
                old(self).nodes().len() == 0 ==> self.nodes().len() == 0,
                forall|c: Seq<Option<i8>>|
                    completes(old(self).root_grid(), c) && frontier_reaches(
                        old(self).nodes(),
                        c,
                    ) ==> frontier_reaches(self.nodes(), c),
                forall|c: Seq<Option<i8>>|
                    #![trigger frontier_reaches(self.nodes(), c)]
                    frontier_reaches(self.nodes(), c) ==> frontier_reaches(old(self).nodes(), c),
            decreases stack_measure(self.tree@),
        {
            if self.tree.len() == 0 {
                proof {
                    assert(self.nodes().len() == 0);
                    assert forall|c: Seq<Option<i8>>|
                        completes(old(self).root_grid(), c) implies !frontier_reaches(
                        old(self).nodes(),
                        c,
                    ) by {
                        if frontier_reaches(old(self).nodes(), c) {
                            assert(frontier_reaches(self.nodes(), c));
                            let k = choose|k: int|
                                0 <= k < self.nodes().len() && node_reaches(
                                    #[trigger] self.nodes()[k],
                                    c,
                                );
                            assert(false);
                        }
                    }
                }
                return None;
            }
            let ghost t0 = self.tree@;
            let ghost root0 = self.root_grid();
            proof {
                assert(self.nodes() == t0);
                assert(forall|k: int| 0 <= k < t0.len() ==> (#[trigger] t0[k]).wf(root0));
            }
            let node = self.tree.pop().unwrap();
            let ghost pre = self.nodes();
            proof {
                assert(self.root_grid() == root0);
                assert(self.nodes() == self.tree@);
                assert(t0.drop_last() =~= self.tree@);
                assert(stack_measure(t0) == stack_measure(self.tree@) + node_weight(node));
                assert(node == t0[t0.len() - 1]);
                assert(node.wf(self.root_grid()));
                assert forall|k: int| 0 <= k < self.nodes().len() implies (
                #[trigger] self.nodes()[k]).wf(self.root_grid()) by {
                    assert(self.nodes()[k] == t0[k]);
                }
                // The popped node chains onto what is left of the stack.
                assert forall|k: int| 0 <= k < self.nodes().len() implies grid_extends(
                    (#[trigger] self.nodes()[k]).spec_board(),
                    node.spec_board(),
                ) by {
                    assert(self.nodes()[k] == t0[k]);
                    assert(grid_extends(t0[k].spec_board(), t0[t0.len() - 1].spec_board()));
                }
                if self.nodes().len() > 0 {
                    assert(self.nodes().last() == t0[t0.len() - 2]);
                    let km = t0.len() - 2;
                    assert((#[trigger] t0[km + 1]).spec_board()[t0[km].spec_position().idx()] matches Some(
                        d2,
                    ) && !t0[km].spec_candidates().contains(d2));
                    assert(t0[km + 1] == node);
                }
                assert forall|k: int, l: int|
                    0 <= k < l < self.nodes().len() implies grid_extends(
                    (#[trigger] self.nodes()[k]).spec_board(),
                    (#[trigger] self.nodes()[l]).spec_board(),
                ) by {
                    assert(self.nodes()[k] == t0[k]);
                    assert(self.nodes()[l] == t0[l]);
                }
                assert forall|k: int|
                    0 <= k < self.nodes().len() - 1 implies ((
                #[trigger] self.nodes()[k + 1]).spec_board()[self.nodes()[k].spec_position().idx()] matches Some(
                    d2,
                ) && !self.nodes()[k].spec_candidates().contains(d2)) by {
                    assert(self.nodes()[k] == t0[k]);
                    assert(self.nodes()[k + 1] == t0[k + 1]);
                }
                assert(chained(self.nodes()));
                // A completion open at the popped stack is open at the rest
                // of the stack or at the popped node itself.
                assert forall|c: Seq<Option<i8>>|
                    completes(root0, c) && frontier_reaches(t0, c) implies (frontier_reaches(
                    pre,
                    c,
                ) || node_reaches(node, c)) by {
                    let k = choose|k: int|
                        0 <= k < t0.len() && node_reaches(#[trigger] t0[k], c);
                    if k < t0.len() - 1 {
                        assert(pre[k] == t0[k]);
                        assert(node_reaches(pre[k], c));
                    }
                }
            }
            match self.next_node(node) {
                Some(board) => {
                    proof {
                        assert forall|c: Seq<Option<i8>>|
                            completes(old(self).root_grid(), c) && frontier_reaches(
                                old(self).nodes(),
                                c,
                            ) && c != board@ implies frontier_reaches(self.nodes(), c) by {
                            assert(frontier_reaches(t0, c));
                            assert(frontier_reaches(pre, c) || node_reaches(node, c));
                            assert(completes(root0, c));
                        }
                        assert(node_reaches(t0[t0.len() - 1], board@));
                        assert(frontier_reaches(t0, board@));
                        assert(frontier_reaches(old(self).nodes(), board@));
                        assert forall|c: Seq<Option<i8>>|
                            frontier_reaches(self.nodes(), c) implies frontier_reaches(
                            old(self).nodes(),
                            c,
                        ) by {
                            assert(frontier_reaches(pre, c) || node_reaches(node, c));
                            if frontier_reaches(pre, c) {
                                let k = choose|k: int|
                                    0 <= k < pre.len() && node_reaches(#[trigger] pre[k], c);
                                assert(node_reaches(t0[k], c));
                            } else {
                                assert(node_reaches(t0[t0.len() - 1], c));
                            }
                            assert(frontier_reaches(t0, c));
                        }
                    }
                    return Some(board);
                },
                None => {
                    proof {
                        assert forall|c: Seq<Option<i8>>|
                            completes(old(self).root_grid(), c) && frontier_reaches(
                                old(self).nodes(),
                                c,
                            ) implies frontier_reaches(self.nodes(), c) by {
                            assert(frontier_reaches(t0, c));
                            assert(frontier_reaches(pre, c) || node_reaches(node, c));
                        }
                        assert forall|c: Seq<Option<i8>>|
                            frontier_reaches(self.nodes(), c) implies frontier_reaches(
                            old(self).nodes(),
                            c,
                        ) by {
                            assert(frontier_reaches(pre, c) || node_reaches(node, c));
                            if frontier_reaches(pre, c) {
                                let k = choose|k: int|
                                    0 <= k < pre.len() && node_reaches(#[trigger] pre[k], c);
                                assert(node_reaches(t0[k], c));
                            } else {
                                assert(node_reaches(t0[t0.len() - 1], c));
                            }
                            assert(frontier_reaches(t0, c));
                        }
                    }
                },
            }
        }
    }

    /// Works one node: tries its next candidate, pushing deeper nodes for
    /// positions still to fill, and returns a board once the last position
    /// is filled. Returns `None` when the search must go on; a `None` with
    /// an exhausted node is the backtracking step.
    fn next_node(&mut self, node: Node) -> (r: Option<Board>)
        requires
            old(self).inv(),
            node.wf(old(self).root_grid()),
            forall|k: int|
                0 <= k < old(self).nodes().len() ==> grid_extends(
                    (#[trigger] old(self).nodes()[k]).spec_board(),
                    node.spec_board(),
                ),
            old(self).nodes().len() > 0
                ==> (node.spec_board()[old(self).nodes().last().spec_position().idx()] matches Some(d)
                    && !old(self).nodes().last().spec_candidates().contains(d)),
        ensures
            final(self).inv(),
            final(self).root_grid() == old(self).root_grid(),
            r is None ==> stack_measure(final(self).nodes()) < stack_measure(old(self).nodes())
                + node_weight(node),
            r matches Some(b) ==> grid_wf(b@) && grid_complete(b@) && grid_extends(
                old(self).root_grid(),
                b@,
            ) && (grid_consistent(old(self).root_grid()) ==> grid_consistent(b@)),
            // Backtrack: an exhausted node is discarded, the stack untouched.
            node.spec_candidates().len() == 0 ==> r is None && final(self).nodes() == old(self).nodes(),
            // The last position: the node is re-pushed with its candidate
            // list advanced, and the child board is returned.
            node.spec_candidates().len() > 0 && node.spec_position().idx() == 80
                ==> (r matches Some(b)
                    && b@ == node.spec_board().update(node.spec_position().idx(), Some(node.spec_candidates().last()))
                    && final(self).nodes() == old(self).nodes().push(final(self).nodes().last())
                    && advanced(node, final(self).nodes().last())),
            // Below the last position: the node is re-pushed advanced, and a
            // child node for the successor position over the child board is
            // pushed; the search goes on.
            node.spec_candidates().len() > 0 && node.spec_position().idx() < 80
                ==> (r is None
                    && final(self).nodes().len() == old(self).nodes().len() + 2
                    && final(self).nodes().subrange(0, old(self).nodes().len() as int) == old(self).nodes()
                    && advanced(node, final(self).nodes()[old(self).nodes().len() as int])
                    && final(self).nodes().last().spec_board() == node.spec_board().update(node.spec_position().idx(), Some(node.spec_candidates().last()))
                    && final(self).nodes().last().spec_position().idx() == node.spec_position().idx() + 1
                    && (forall|d: i8|
                        final(self).nodes().last().spec_candidates().contains(d) <==> candidate_ok(
                            final(self).nodes().last().spec_board(),
                            final(self).nodes().last().spec_position().row as int,
                            final(self).nodes().last().spec_position().column as int,
                            d,
                        ))),
            // A completion open before this step stays open, unless it is
            // the very board returned.
            forall|c: Seq<Option<i8>>|
                #![trigger completes(old(self).root_grid(), c)]
                completes(old(self).root_grid(), c) && (frontier_reaches(old(self).nodes(), c)
                    || node_reaches(node, c)) && (r matches Some(b) ==> c != b@)
                    ==> frontier_reaches(final(self).nodes(), c),
            // Nothing becomes open that was not open before, and a returned
            // board was open at the worked node but is open nowhere after:
            // the search never hands out the same completion twice.
            forall|c: Seq<Option<i8>>|
                #![trigger frontier_reaches(final(self).nodes(), c)]
                frontier_reaches(final(self).nodes(), c) ==> frontier_reaches(
                    old(self).nodes(),
                    c,
                ) || node_reaches(node, c),
            r matches Some(b) ==> node_reaches(node, b@) && !frontier_reaches(
                final(self).nodes(),
                b@,
            ),
    {
        let ghost root = self.root@;
        let ghost node0 = node;
        let mut node = node;
        let board = match node.next_board() {
            Some(board) => board,
            None => {
                proof {
                    let e = (81 - node0.spec_position().idx()) as nat;
                    lemma_pow11_pos(e);
                    let c0 = node0.spec_candidates().len() as nat;
                    assert(node_weight(node0) >= 1) by (nonlinear_arith)
                        requires
                            node_weight(node0) == (c0 + 1) * pow11(e),
                            pow11(e) >= 1,
                    ;
                    assert(node0.spec_candidates().len() == 0);
                    assert(self.nodes() == old(self).nodes());
                    assert forall|c: Seq<Option<i8>>|
                        completes(root, c) && (frontier_reaches(old(self).nodes(), c)
                            || node_reaches(node0, c)) implies frontier_reaches(
                        self.nodes(),
                        c,
                    ) by {
                        if node_reaches(node0, c) {
                            let dd = c[node0.spec_position().idx()]->Some_0;
                            assert(node0.spec_candidates().contains(dd));
                            assert(false);
                        }
                    }
                }
                return None;
            },
        };
        let ghost g0 = node0.spec_board();
        let ghost row = node0.spec_position().row as int;
        let ghost col = node0.spec_position().column as int;
        let ghost d = node0.spec_candidates().last();
        proof {
            assert(board@ == g0.update(node0.spec_position().idx(), Some(d)));
            assert(node0.spec_position().idx() == cell_idx(row, col));
            assert(candidate_ok(g0, row, col, d));
            if g0[cell_idx(row, col)] is Some {
                assert(g0[cell_idx(row, col)] == Some(d));
                assert(board@ =~= g0);
            } else {
                assert(1 <= d <= 9 && placement_ok(g0, row, col, d));
                if grid_consistent(root) {
                    lemma_place_preserves_consistent(g0, row, col, d);
                }
            }
            // The child board is well-formed, extends the root, keeps the
            // root's consistency, and is filled through this node's position.
            assert forall|i: int| 0 <= i < 81 implies cell_ok(#[trigger] board@[i]) by {
                if i != cell_idx(row, col) {
                    assert(board@[i] == g0[i]);
                }
            }
            assert forall|i: int| 0 <= i < 81 && (#[trigger] root[i]) is Some implies board@[i]
                == root[i] by {
                if i == cell_idx(row, col) {
                    assert(g0[i] == root[i]);
                } else {
                    assert(board@[i] == g0[i]);
                }
            }
            assert forall|i: int|
                0 <= i < node0.spec_position().idx() + 1 implies (#[trigger] board@[i]) is Some by {
                if i < node0.spec_position().idx() {
                    assert(g0[i] is Some);
                    assert(board@[i] == g0[i]);
                }
            }
            assert(grid_wf(board@));
            assert(grid_extends(root, board@));
            assert(filled_below(board@, node0.spec_position().idx() + 1));
            assert(grid_consistent(root) ==> grid_consistent(board@));
            assert forall|i: int| 0 <= i < 81 && (#[trigger] g0[i]) is Some implies board@[i]
                == g0[i] by {
                if i == cell_idx(row, col) {
                    assert(g0[i] == Some(d));
                }
            }
            assert(grid_extends(g0, board@));
            assert(board@[cell_idx(row, col)] == Some(d));
        }
        let new_position = match node.position.next() {
            Some(pos) => pos,
            None => {
                proof {
                    assert(node0.spec_position().idx() == 80);
                    assert(grid_complete(board@));
                    assert(node.wf(root));
                    lemma_stack_measure_push(old(self).nodes(), node);
                }
                let ghost node1 = node;
                self.tree.push(node);
                proof {
                    assert(self.nodes() == old(self).nodes().push(node1));
                    assert(self.nodes().last() == node1);
                    assert(advanced(node0, node1));
                    assert forall|k: int, l: int|
                        0 <= k < l < self.nodes().len() implies grid_extends(
                        (#[trigger] self.nodes()[k]).spec_board(),
                        (#[trigger] self.nodes()[l]).spec_board(),
                    ) by {
                        assert(self.nodes()[k] == old(self).nodes()[k]);
                        if l < self.nodes().len() - 1 {
                            assert(self.nodes()[l] == old(self).nodes()[l]);
                        } else {
                            assert(self.nodes()[l] == node1);
                        }
                    }
                    assert forall|k: int|
                        0 <= k < self.nodes().len() - 1 implies ((
                    #[trigger] self.nodes()[k + 1]).spec_board()[self.nodes()[k].spec_position().idx()] matches Some(
                        d2,
                    ) && !self.nodes()[k].spec_candidates().contains(d2)) by {
                        assert(self.nodes()[k] == old(self).nodes()[k]);
                        if k + 1 < self.nodes().len() - 1 {
                            assert(self.nodes()[k + 1] == old(self).nodes()[k + 1]);
                        } else {
                            assert(self.nodes()[k + 1] == node1);
                        }
                    }
                    assert(chained(self.nodes()));
                    assert(node0.spec_candidates()[node0.spec_candidates().len() - 1] == d);
                    assert(node0.spec_candidates().contains(d));
                    assert(node_reaches(node0, board@));
                    assert(!node1.spec_candidates().contains(d)) by {
                        if node1.spec_candidates().contains(d) {
                            let kd = choose|kd: int|
                                0 <= kd < node1.spec_candidates().len()
                                    && node1.spec_candidates()[kd] == d;
                            assert(node0.spec_candidates()[kd] == d);
                            assert(false);
                        }
                    }
                    // The returned board is open nowhere on the new stack:
                    // every node below this one already placed its digit on
                    // this path, and this node has now consumed `d`.
                    assert forall|k: int|
                        0 <= k < self.nodes().len() implies !node_reaches(
                        #[trigger] self.nodes()[k],
                        board@,
                    ) by {
                        if k == self.nodes().len() - 1 {
                            assert(self.nodes()[k] == node1);
                            assert(board@[node1.spec_position().idx()] == Some(d));
                        } else {
                            assert(self.nodes()[k] == old(self).nodes()[k]);
                            assert(old(self).nodes()[k].wf(root));
                            let pk = old(self).nodes()[k].spec_position().idx();
                            if k == old(self).nodes().len() - 1 {
                                assert(node0.spec_board()[pk] is Some);
                                assert(board@[pk] == node0.spec_board()[pk]);
                            } else {
                                assert((#[trigger] old(self).nodes()[k + 1]).spec_board()[pk] matches Some(
                                    dk,
                                ) && !old(self).nodes()[k].spec_candidates().contains(dk));
                                assert(grid_extends(
                                    old(self).nodes()[k + 1].spec_board(),
                                    node0.spec_board(),
                                ));
                                assert(node0.spec_board()[pk] == old(self).nodes()[k
                                    + 1].spec_board()[pk]);
                                assert(board@[pk] == node0.spec_board()[pk]);
                            }
                        }
                    }
                    assert(!frontier_reaches(self.nodes(), board@));
                    // Nothing new became open: the re-pushed node offers
                    // fewer candidates than the worked node did.
                    assert forall|c: Seq<Option<i8>>|
                        frontier_reaches(self.nodes(), c) implies (frontier_reaches(
                        old(self).nodes(),
                        c,
                    ) || node_reaches(node0, c)) by {
                        let k = choose|k: int|
                            0 <= k < self.nodes().len() && node_reaches(
                                #[trigger] self.nodes()[k],
                                c,
                            );
                        if k < self.nodes().len() - 1 {
                            assert(node_reaches(old(self).nodes()[k], c));
                        } else {
                            assert(self.nodes()[k] == node1);
                            let e = c[node1.spec_position().idx()]->Some_0;
                            let ke = choose|ke: int|
                                0 <= ke < node1.spec_candidates().len()
                                    && node1.spec_candidates()[ke] == e;
                            assert(node0.spec_candidates()[ke] == e);
                            assert(node0.spec_candidates().contains(e));
                            assert(node_reaches(node0, c));
                        }
                    }
                    assert forall|c: Seq<Option<i8>>|
                        completes(root, c) && (frontier_reaches(old(self).nodes(), c)
                            || node_reaches(node0, c)) && c != board@ implies frontier_reaches(
                        self.nodes(),
                        c,
                    ) by {
                        if frontier_reaches(old(self).nodes(), c) {
                            let k = choose|k: int|
                                0 <= k < old(self).nodes().len() && node_reaches(
                                    #[trigger] old(self).nodes()[k],
                                    c,
                                );
                            assert(self.nodes()[k] == old(self).nodes()[k]);
                            assert(node_reaches(self.nodes()[k], c));
                        } else {
                            let e = c[node0.spec_position().idx()]->Some_0;
                            assert(node0.spec_candidates().contains(e));
                            if e == d {
                                // `c` extends the complete returned board,
                                // so it is that very board: excluded.
                                assert forall|i: int|
                                    0 <= i < 81 && (#[trigger] board@[i]) is Some implies c[i]
                                    == board@[i] by {
                                    if i != cell_idx(row, col) {
                                        assert(board@[i] == g0[i]);
                                    } else {
                                        assert(board@[i] == Some(d));
                                        assert(c[i] == Some(e));
                                    }
                                }
                                lemma_completion_of_complete(board@, c);
                                assert(false);
                            } else {
                                let k2 = choose|k2: int|
                                    0 <= k2 < node0.spec_candidates().len()
                                        && node0.spec_candidates()[k2] == e;
                                assert(k2 != node0.spec_candidates().len() - 1);
                                assert(node1.spec_candidates()[k2] == e);
                                assert(node1.spec_candidates().contains(e));
                                assert(node_reaches(self.nodes()[self.nodes().len() - 1], c));
                            }
                        }
                    }
                }
                return Some(board);
            },
        };
        proof {
            assert(node.wf(root));
        }
        let ghost node1 = node;
        self.tree.push(node);
        let node2 = Node::new(board, new_position, &mut self.rng);
        proof {
            assert(node2.wf(root));
        }
        self.tree.push(node2);
        proof {
            assert(self.nodes() == old(self).nodes().push(node1).push(node2));
            assert(self.nodes().subrange(0, old(self).nodes().len() as int) =~= old(self).nodes());
            assert(self.nodes()[old(self).nodes().len() as int] == node1);
            assert(self.nodes().last() == node2);
            assert(advanced(node0, node1));
            assert(node2.spec_position().idx() == node0.spec_position().idx() + 1);
            assert(!node1.spec_candidates().contains(d)) by {
                if node1.spec_candidates().contains(d) {
                    let kd = choose|kd: int|
                        0 <= kd < node1.spec_candidates().len() && node1.spec_candidates()[kd]
                            == d;
                    assert(node0.spec_candidates()[kd] == d);
                    assert(node0.spec_candidates()[node0.spec_candidates().len() - 1] == d);
                    assert(false);
                }
            }
            assert forall|k: int, l: int|
                0 <= k < l < self.nodes().len() implies grid_extends(
                (#[trigger] self.nodes()[k]).spec_board(),
                (#[trigger] self.nodes()[l]).spec_board(),
            ) by {
                if l < old(self).nodes().len() {
                    assert(self.nodes()[k] == old(self).nodes()[k]);
                    assert(self.nodes()[l] == old(self).nodes()[l]);
                } else if l == old(self).nodes().len() {
                    assert(self.nodes()[k] == old(self).nodes()[k]);
                    assert(self.nodes()[l] == node1);
                } else {
                    assert(self.nodes()[l] == node2);
                    if k < old(self).nodes().len() {
                        assert(self.nodes()[k] == old(self).nodes()[k]);
                        let bk = old(self).nodes()[k].spec_board();
                        assert(grid_extends(bk, g0));
                        assert forall|i: int|
                            0 <= i < 81 && (#[trigger] bk[i]) is Some implies board@[i]
                            == bk[i] by {
                            assert(g0[i] == bk[i]);
                            assert(board@[i] == g0[i]);
                        }
                    } else {
                        assert(self.nodes()[k] == node1);
                    }
                }
            }
            assert forall|k: int|
                0 <= k < self.nodes().len() - 1 implies ((
            #[trigger] self.nodes()[k + 1]).spec_board()[self.nodes()[k].spec_position().idx()] matches Some(
                d2,
            ) && !self.nodes()[k].spec_candidates().contains(d2)) by {
                if k + 1 < old(self).nodes().len() {
                    assert(self.nodes()[k] == old(self).nodes()[k]);
                    assert(self.nodes()[k + 1] == old(self).nodes()[k + 1]);
                } else if k + 1 == old(self).nodes().len() {
                    assert(self.nodes()[k] == old(self).nodes()[k]);
                    assert(self.nodes()[k + 1] == node1);
                } else {
                    assert(self.nodes()[k] == node1);
                    assert(self.nodes()[k + 1] == node2);
                    assert(board@[cell_idx(row, col)] == Some(d));
                }
            }
            assert(chained(self.nodes()));
            assert(node0.spec_candidates()[node0.spec_candidates().len() - 1] == d);
            assert(node0.spec_candidates().contains(d));
            // Nothing new became open: completions open at the child or at
            // the re-pushed node were open at the worked node already.
            assert forall|c: Seq<Option<i8>>|
                frontier_reaches(self.nodes(), c) implies (frontier_reaches(old(self).nodes(), c)
                    || node_reaches(node0, c)) by {
                let k = choose|k: int|
                    0 <= k < self.nodes().len() && node_reaches(#[trigger] self.nodes()[k], c);
                if k < old(self).nodes().len() {
                    assert(node_reaches(old(self).nodes()[k], c));
                } else if k == old(self).nodes().len() {
                    assert(self.nodes()[k] == node1);
                    let e = c[node1.spec_position().idx()]->Some_0;
                    let ke = choose|ke: int|
                        0 <= ke < node1.spec_candidates().len() && node1.spec_candidates()[ke]
                            == e;
                    assert(node0.spec_candidates()[ke] == e);
                    assert(node0.spec_candidates().contains(e));
                    assert(node_reaches(node0, c));
                } else {
                    assert(self.nodes()[k] == node2);
                    assert(grid_extends(board@, c));
                    assert(board@[cell_idx(row, col)] == Some(d));
                    assert(c[cell_idx(row, col)] == Some(d));
                    assert forall|i: int|
                        0 <= i < 81 && (#[trigger] g0[i]) is Some implies c[i] == g0[i] by {
                        assert(board@[i] == g0[i]);
                        assert(c[i] == board@[i]);
                    }
                    assert(node_reaches(node0, c));
                }
            }
            let row2 = node2.spec_position().row as int;
            let col2 = node2.spec_position().column as int;
            assert forall|c: Seq<Option<i8>>|
                completes(root, c) && (frontier_reaches(old(self).nodes(), c) || node_reaches(
                    node0,
                    c,
                )) implies frontier_reaches(self.nodes(), c) by {
                if frontier_reaches(old(self).nodes(), c) {
                    let k = choose|k: int|
                        0 <= k < old(self).nodes().len() && node_reaches(
                            #[trigger] old(self).nodes()[k],
                            c,
                        );
                    assert(self.nodes()[k] == old(self).nodes()[k]);
                    assert(node_reaches(self.nodes()[k], c));
                } else if node_reaches(node0, c) {
                    let e = c[node0.spec_position().idx()]->Some_0;
                    assert(node0.spec_candidates().contains(e));
                    if e == d {
                        // `c` runs through the child board: it is open at
                        // the freshly pushed child node.
                        assert forall|i: int|
                            0 <= i < 81 && (#[trigger] board@[i]) is Some implies c[i]
                            == board@[i] by {
                            if i != cell_idx(row, col) {
                                assert(board@[i] == g0[i]);
                            } else {
                                assert(board@[i] == Some(d));
                                assert(c[i] == Some(e));
                            }
                        }
                        assert(grid_extends(board@, c));
                        assert(cell_idx(row2, col2) == node2.spec_position().idx());
                        assert(0 <= cell_idx(row2, col2) < 81);
                        assert(c[cell_idx(row2, col2)] is Some);
                        let e2 = c[cell_idx(row2, col2)]->Some_0;
                        lemma_completion_candidate(board@, c, row2, col2);
                        assert(candidate_ok(board@, row2, col2, e2));
                        assert(node2.spec_candidates().contains(e2));
                        assert(node_reaches(self.nodes()[self.nodes().len() - 1], c));
                    } else {
                        // The untried candidate `e` stays untried on the
                        // re-pushed node.
                        let k2 = choose|k2: int|
                            0 <= k2 < node0.spec_candidates().len() && node0.spec_candidates()[k2]
                                == e;
                        assert(k2 != node0.spec_candidates().len() - 1);
                        assert(node1.spec_candidates()[k2] == e);
                        assert(node1.spec_candidates().contains(e));
                        assert(node_reaches(self.nodes()[old(self).nodes().len() as int], c));
                    }
                }
            }
            let t0 = old(self).nodes();
            lemma_stack_measure_push(t0, node1);
            lemma_stack_measure_push(t0.push(node1), node2);
            let e = (80 - node0.spec_position().idx()) as nat;
            lemma_pow11_pos(e);
            let c0 = node0.spec_candidates().len() as nat;
            let c2 = node2.spec_candidates().len() as nat;
            let q = pow11(e);
            assert(pow11((81 - node0.spec_position().idx()) as nat) == 11 * q);
            assert(node_weight(node) + node_weight(node2) < node_weight(node0))
                by (nonlinear_arith)
                requires
                    node_weight(node0) == (c0 + 1) * (11 * q),
                    node_weight(node) == c0 * (11 * q),
                    node_weight(node2) == (c2 + 1) * q,
                    c2 <= 9,
                    q >= 1,
            ;
        }
        None
    }

    /// Pops nodes until the stack height is at most `num`, discarding the
    /// deepest exploration. The bottom `num` nodes stay exactly as they are.
    pub fn pop(&mut self, num: usize)
        requires
            old(self).inv(),
        ensures
            final(self).inv(),
            final(self).root_grid() == old(self).root_grid(),
            old(self).nodes().len() <= num ==> final(self).nodes() == old(self).nodes(),
            old(self).nodes().len() > num ==> final(self).nodes() == old(self).nodes().subrange(
                0,
                num as int,
            ),
    {
        proof {
            assert(self.tree@ =~= old(self).nodes().subrange(0, self.tree@.len() as int));
        }
        while self.tree.len() > num
            invariant
                self.inv(),
                self.root_grid() == old(self).root_grid(),
                self.tree@.len() <= old(self).nodes().len(),
                num <= self.tree@.len() || self.tree@.len() == old(self).nodes().len(),
                self.tree@ == old(self).nodes().subrange(0, self.tree@.len() as int),
            decreases self.tree@.len(),
        {
            let ghost t1 = self.tree@;
            let ghost root0 = self.root_grid();
            proof {
                assert(self.nodes() == t1);
                assert(forall|k: int| 0 <= k < t1.len() ==> (#[trigger] t1[k]).wf(root0));
            }
            self.tree.pop();
            proof {
                assert(self.nodes() == self.tree@);
                assert(self.root_grid() == root0);
                assert(self.tree@ =~= old(self).nodes().subrange(0, self.tree@.len() as int));
                assert forall|k: int| 0 <= k < self.nodes().len() implies (
                #[trigger] self.nodes()[k]).wf(self.root_grid()) by {
                    assert(self.nodes()[k] == t1[k]);
                }
                assert forall|k: int, l: int|
                    0 <= k < l < self.nodes().len() implies grid_extends(
                    (#[trigger] self.nodes()[k]).spec_board(),
                    (#[trigger] self.nodes()[l]).spec_board(),
                ) by {
                    assert(self.nodes()[k] == t1[k]);
                    assert(self.nodes()[l] == t1[l]);
                }
                assert forall|k: int|
                    0 <= k < self.nodes().len() - 1 implies ((
                #[trigger] self.nodes()[k + 1]).spec_board()[self.nodes()[k].spec_position().idx()] matches Some(
                    d2,
                ) && !self.nodes()[k].spec_candidates().contains(d2)) by {
                    assert(self.nodes()[k] == t1[k]);
                    assert(self.nodes()[k + 1] == t1[k + 1]);
                }
                assert(chained(self.nodes()));
            }
        }
        proof {
            if old(self).nodes().len() <= num {
                assert(self.tree@ =~= old(self).nodes());
            }
        }
    }
}

} // verus!
