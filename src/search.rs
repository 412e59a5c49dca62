use vstd::prelude::*;

use crate::board::{lemma_board_facts, lemma_child, Board, State};

verus! {

/// The full-width negamax value of `b`, as seen by the side whose sign is
/// `colour`: a finished board scores `colour * eval`, any other board the
/// best of its moves' scores.
pub open spec fn value(b: Board, colour: int) -> int
    decreases b.moves().len(), 1int, 0int
    when b.valid()
{
    if b.is_over() {
        colour * b.eval()
    } else {
        best_prefix(b, colour, b.moves().len() as int)
    }
}

/// The best score among the first `n` moves of `b`, each move scored as the
/// negated value of the board it leads to.
pub open spec fn best_prefix(b: Board, colour: int, n: int) -> int
    decreases b.moves().len(), 0int, n
    when b.valid() && 1 <= n <= b.moves().len()
{
    let m = b.moves()[n - 1] as int;
    proof {
        lemma_board_facts(b);
        lemma_child(b, m);
    }
    let s = -value(b.played(m), -colour);
    if n == 1 {
        s
    } else {
        let p = best_prefix(b, colour, n - 1);
        if p >= s {
            p
        } else {
            s
        }
    }
}

/// The score of the `j`-th move of `b`: the negated value of the board it
/// leads to.
pub open spec fn move_score(b: Board, colour: int, j: int) -> int {
    -value(b.played(b.moves()[j] as int), -colour)
}

/// `v` brought into the window `[alpha, beta]`.
pub open spec fn clamp(v: int, alpha: int, beta: int) -> int {
    if v <= alpha {
        alpha
    } else if v >= beta {
        beta
    } else {
        v
    }
}

/// The score that the windowed search returns: the exact value on a finished
/// board, else the value brought into the window.
pub open spec fn search_score(b: Board, colour: int, alpha: int, beta: int) -> int {
    if b.is_over() {
        colour * b.eval()
    } else {
        clamp(value(b, colour), alpha, beta)
    }
}

/// The number of finished boards that the windowed search visits: one for a
/// finished board, else those visited under each move until a move scores at
/// least `beta`.
pub open spec fn search_nodes(b: Board, colour: int, alpha: int, beta: int) -> nat
    decreases b.moves().len(), 1int, 0int
    when b.valid()
{
    if b.is_over() {
        1
    } else {
        loop_nodes(b, colour, alpha, beta, 0)
    }
}

/// The finished boards visited under moves `i..` of `b`, with the window's
/// lower bound raised to `alpha` by the moves before.
pub open spec fn loop_nodes(b: Board, colour: int, alpha: int, beta: int, i: int) -> nat
    decreases b.moves().len(), 0int, b.moves().len() - i
    when b.valid() && 0 <= i
{
    if i >= b.moves().len() {
        0
    } else {
        let m = b.moves()[i] as int;
        proof {
            lemma_board_facts(b);
            lemma_child(b, m);
        }
        let c = b.played(m);
        let score = -search_score(c, -colour, -beta, -alpha);
        let n = search_nodes(c, -colour, -beta, -alpha);
        if score >= beta {
            n
        } else {
            n + loop_nodes(b, colour, if score > alpha { score } else { alpha }, beta, i + 1)
        }
    }
}

pub open spec fn fact(n: nat) -> nat
    decreases n,
{
    if n == 0 {
        1
    } else {
        n * fact((n - 1) as nat)
    }
}

proof fn lemma_fact_mono(a: nat, b: nat)
    requires
        a <= b,
    ensures
        1 <= fact(a) <= fact(b),
    decreases b,
{
    if a < b {
        lemma_fact_mono(a, (b - 1) as nat);
        assert(fact((b - 1) as nat) <= b * fact((b - 1) as nat)) by (nonlinear_arith)
            requires
                b >= 1,
        ;
    } else if a > 0 {
        lemma_fact_mono((a - 1) as nat, (a - 1) as nat);
        assert(1 <= a * fact((a - 1) as nat)) by (nonlinear_arith)
            requires
                a >= 1,
                fact((a - 1) as nat) >= 1,
        ;
    }
}

/// The value lies in `[-1, 1]`.
proof fn lemma_value_range(b: Board, colour: int)
    requires
        b.valid(),
        colour == 1 || colour == -1,
    ensures
        -1 <= value(b, colour) <= 1,
    decreases b.moves().len(), 1int, 0int
{
    lemma_board_facts(b);
    if !b.is_over() {
        lemma_prefix_range(b, colour, b.moves().len() as int);
    }
}

/// The best of the first `n` moves lies in `[-1, 1]` and is at least each
/// of their scores.
proof fn lemma_prefix_range(b: Board, colour: int, n: int)
    requires
        b.valid(),
        colour == 1 || colour == -1,
        1 <= n <= b.moves().len(),
    ensures
        -1 <= best_prefix(b, colour, n) <= 1,
        forall|j: int| 0 <= j < n ==> move_score(b, colour, j) <= best_prefix(b, colour, n),
    decreases b.moves().len(), 0int, n
{
    lemma_board_facts(b);
    let m = b.moves()[n - 1] as int;
    lemma_child(b, m);
    lemma_value_range(b.played(m), -colour);
    if n > 1 {
        lemma_prefix_range(b, colour, n - 1);
    }
}

proof fn lemma_prefix_mono(b: Board, colour: int, n: int, k: int)
    requires
        b.valid(),
        1 <= n <= k <= b.moves().len(),
    ensures
        best_prefix(b, colour, n) <= best_prefix(b, colour, k),
    decreases k - n,
{
    lemma_board_facts(b);
    if n < k {
        lemma_prefix_mono(b, colour, n, k - 1);
    }
}

/// The windowed score agrees with the value inside the window, and lies on
/// the same side of each bound as the value outside it.
pub proof fn lemma_window(b: Board, colour: int, alpha: int, beta: int)
    requires
        b.valid(),
        alpha < beta,
    ensures
        alpha < value(b, colour) < beta ==> search_score(b, colour, alpha, beta) == value(b, colour),
        value(b, colour) <= alpha ==> search_score(b, colour, alpha, beta) <= alpha,
        value(b, colour) >= beta ==> search_score(b, colour, alpha, beta) >= beta,
{
}

/// Pruning never changes the result: with a window that strictly contains
/// every achievable score, the search returns the full-width value.
pub proof fn lemma_pruning_exact(b: Board, colour: int, alpha: int, beta: int)
    requires
        b.valid(),
        colour == 1 || colour == -1,
        alpha < -1,
        1 < beta,
    ensures
        search_score(b, colour, alpha, beta) == value(b, colour),
{
    lemma_value_range(b, colour);
}

proof fn lemma_nodes_bound(b: Board, colour: int, alpha: int, beta: int)
    requires
        b.valid(),
    ensures
        search_nodes(b, colour, alpha, beta) <= fact(b.moves().len()),
    decreases b.moves().len(), 1int, 0int
{
    lemma_board_facts(b);
    lemma_fact_mono(0, b.moves().len());
    if !b.is_over() {
        lemma_loop_nodes_bound(b, colour, alpha, beta, 0);
        let n = b.moves().len();
        assert(fact(n) == n * fact((n - 1) as nat));
    }
}

proof fn lemma_loop_nodes_bound(b: Board, colour: int, alpha: int, beta: int, i: int)
    requires
        b.valid(),
        0 <= i <= b.moves().len(),
        b.moves().len() > 0,
    ensures
        loop_nodes(b, colour, alpha, beta, i) <= (b.moves().len() - i) * fact((b.moves().len() - 1) as nat),
    decreases b.moves().len(), 0int, b.moves().len() - i
{
    lemma_board_facts(b);
    let len = b.moves().len();
    if i < len {
        let m = b.moves()[i] as int;
        lemma_child(b, m);
        let c = b.played(m);
        let score = -search_score(c, -colour, -beta, -alpha);
        let na = if score > alpha { score } else { alpha };
        lemma_nodes_bound(c, -colour, -beta, -alpha);
        lemma_loop_nodes_bound(b, colour, na, beta, i + 1);
        let f = fact((len - 1) as nat);
        let rest = loop_nodes(b, colour, na, beta, i + 1);
        assert(rest <= (len - (i + 1)) * f);
        assert(f + (len - (i + 1)) * f == (len - i) * f) by (nonlinear_arith);
    }
}

proof fn lemma_prefix_step(b: Board, colour: int, n: int)
    requires
        b.valid(),
        1 <= n < b.moves().len(),
    ensures
        best_prefix(b, colour, n + 1) == (if best_prefix(b, colour, n) >= move_score(b, colour, n) {
            best_prefix(b, colour, n)
        } else {
            move_score(b, colour, n)
        }),
{
    lemma_board_facts(b);
}

/// The finished boards that the searches under the first `n` moves of `b`
/// visit, each searched with the window `(-2, 2)`.
pub open spec fn root_nodes(b: Board, n: int) -> nat
    decreases n,
{
    if n <= 0 {
        0
    } else {
        root_nodes(b, n - 1) + search_nodes(b.played(b.moves()[n - 1] as int), -b.turn, -2, 2)
    }
}

proof fn lemma_fact_8()
    ensures
        fact(8) == 40320,
{
    assert(fact(0) == 1);
    assert(fact(1) == 1);
    assert(fact(2) == 2);
    assert(fact(3) == 6);
    assert(fact(4) == 24);
    assert(fact(5) == 120);
    assert(fact(6) == 720);
    assert(fact(7) == 5040);
    assert(fact(8) == 40320);
}

/// What one engine move chose and found.
pub struct EngineMove {
    /// The cell played.
    pub cell: i8,
    /// Its score for the side that moved: 1 a win, 0 a draw, -1 a loss.
    pub score: i16,
    /// The finished boards visited.
    pub nodes: i32,
    /// The predicted chance of a win, in percent.
    pub win_percent: i16,
}

/// The search engine: a board and the count of finished boards visited.
pub struct Istus {
    pub node: State,
    pub nodes: i32,
}

impl Istus {
    /// An engine on the empty board.
    pub fn new() -> (r: Istus)
        ensures
            r.node.wf(),
            r.node@ == State::new_spec(),
            r.nodes == 0,
    {
        Istus { node: State::new(), nodes: 0 }
    }

    /// Sets the count of visited boards to zero.
    pub fn reset_nodes(&mut self)
        ensures
            final(self).nodes == 0,
            final(self).node == old(self).node,
    {
        self.nodes = 0;
    }

    /// Negamax search with alpha-beta pruning of the board, for the side whose
    /// sign is `colour`, within the window `(a, b)`. The board is left as it
    /// was, and each finished board visited adds one to `nodes`.
    pub fn negamax(&mut self, colour: i16, a: i16, b: i16) -> (r: i16)
        requires
            old(self).node.wf(),
            colour == 1 || colour == -1,
            -0x7fff <= a < b,
            old(self).nodes + search_nodes(old(self).node@, colour as int, a as int, b as int) <= 0x7fff_ffff,
        ensures
            final(self).node.wf(),
            final(self).node@ == old(self).node@,
            r == search_score(old(self).node@, colour as int, a as int, b as int),
            final(self).nodes == old(self).nodes + search_nodes(old(self).node@, colour as int, a as int, b as int),
        decreases self.node@.moves().len(),
    {
        let ghost bd = self.node@;
        proof {
            lemma_board_facts(bd);
        }
        if self.node.is_game_over() {
            self.nodes = self.nodes + 1;
            return colour * self.node.evaluate();
        }
        let ghost n0 = self.nodes as int;
        let ghost total = loop_nodes(bd, colour as int, a as int, b as int, 0);
        assert(search_nodes(bd, colour as int, a as int, b as int) == total);
        let moves = self.node.legal_moves();
        let mut alpha: i16 = a;
        let mut i: usize = 0;
        while i < moves.len()
            invariant
                self.node.wf(),
                self.node@ == bd,
                old(self).node@ == bd,
                old(self).nodes == n0,
                bd.valid(),
                !bd.is_over(),
                moves@ == bd.moves(),
                0 <= i <= moves@.len(),
                colour == 1 || colour == -1,
                a <= alpha < b,
                -0x7fff <= a,
                i == 0 ==> alpha == a,
                i > 0 ==> alpha == (if a >= best_prefix(bd, colour as int, i as int) {
                    a as int
                } else {
                    best_prefix(bd, colour as int, i as int)
                }),
                i > 0 ==> best_prefix(bd, colour as int, i as int) < b,
                self.nodes + loop_nodes(bd, colour as int, alpha as int, b as int, i as int) == n0 + total,
                n0 + total <= 0x7fff_ffff,
                search_nodes(bd, colour as int, a as int, b as int) == total,
            decreases moves@.len() - i,
        {
            let m = moves[i];
            proof {
                lemma_board_facts(bd);
                assert(bd.is_free(bd.moves()[i as int] as int));
                lemma_child(bd, m as int);
            }
            let ghost c = bd.played(m as int);
            self.node.play(m);
            proof {
                lemma_window(c, -colour, -b as int, -alpha as int);
                lemma_value_range(c, -colour);
                lemma_board_facts(c);
            }
            let score = -self.negamax(-colour, -b, -alpha);
            self.node.unplay();
            proof {
                crate::board::lemma_play_unplay(bd, m as int);
                if i > 0 {
                    lemma_prefix_step(bd, colour as int, i as int);
                }
                lemma_prefix_range(bd, colour as int, i as int + 1);
            }
            if score >= b {
                proof {
                    lemma_prefix_range(bd, colour as int, moves@.len() as int);
                    if i + 1 < moves@.len() {
                        lemma_prefix_mono(bd, colour as int, i as int + 1, moves@.len() as int);
                    }
                }
                return b;
            }
            if score > alpha {
                alpha = score;
            }
            i = i + 1;
        }
        alpha
    }
    /// Searches every move of the side to move in ascending order, plays the
    /// first one with the highest score, and reports it.
    pub fn engine_move(&mut self) -> (r: EngineMove)
        requires
            old(self).node.wf(),
            !old(self).node@.is_full(),
        ensures
            final(self).node.wf(),
            ({
                let bd = old(self).node@;
                &&& exists|k: int|
                    0 <= k < bd.moves().len() && bd.moves()[k] == r.cell && move_score(bd, bd.turn, k)
                        == r.score && forall|j: int| 0 <= j < k ==> move_score(bd, bd.turn, j) < r.score
                &&& forall|j: int| 0 <= j < bd.moves().len() ==> move_score(bd, bd.turn, j) <= r.score
                &&& final(self).node@ == bd.played(r.cell as int)
                &&& r.nodes == root_nodes(bd, bd.moves().len() as int)
            }),
            final(self).nodes == r.nodes,
            -1 <= r.score <= 1,
            r.win_percent == (1 + r.score) * 50,
    {
        let ghost bd = self.node@;
        proof {
            lemma_board_facts(bd);
            lemma_fact_8();
        }
        let mut bestmove: i8 = 0;
        let mut bestcase: i16 = -2;
        let ghost mut best_k: int = 0;
        self.reset_nodes();
        let moves = self.node.legal_moves();
        let mut i: usize = 0;
        while i < moves.len()
            invariant
                self.node.wf(),
                self.node@ == bd,
                bd.valid(),
                moves@ == bd.moves(),
                0 < moves@.len() <= 9,
                0 <= i <= moves@.len(),
                fact(8) == 40320,
                i == 0 ==> bestcase == -2,
                i > 0 ==> 0 <= best_k < i && moves@[best_k] == bestmove && move_score(bd, bd.turn, best_k)
                    == bestcase && -1 <= bestcase <= 1,
                i > 0 ==> forall|j: int| 0 <= j < best_k ==> move_score(bd, bd.turn, j) < bestcase,
                forall|j: int| 0 <= j < i ==> move_score(bd, bd.turn, j) <= bestcase,
                self.nodes == root_nodes(bd, i as int),
                root_nodes(bd, i as int) <= i * 40320,
            decreases moves@.len() - i,
        {
            let m = moves[i];
            proof {
                lemma_board_facts(bd);
                assert(bd.is_free(bd.moves()[i as int] as int));
                lemma_child(bd, m as int);
            }
            let ghost c = bd.played(m as int);
            self.node.play(m);
            let t = self.node.turn();
            proof {
                lemma_nodes_bound(c, -bd.turn, -2, 2);
                lemma_fact_mono(c.moves().len(), 8);
                lemma_pruning_exact(c, -bd.turn, -2, 2);
                lemma_value_range(c, -bd.turn);
                assert(i * 40320 + 40320 <= 0x7fff_ffff) by (nonlinear_arith)
                    requires
                        i < 9,
                ;
            }
            let score = -self.negamax(t, -2, 2);
            self.node.unplay();
            proof {
                crate::board::lemma_play_unplay(bd, m as int);
                assert((i + 1) * 40320 == i * 40320 + 40320) by (nonlinear_arith);
            }
            if bestcase < score {
                bestcase = score;
                bestmove = m;
                proof {
                    best_k = i as int;
                }
            }
            i = i + 1;
        }
        proof {
            lemma_board_facts(bd);
            assert(bd.is_free(bd.moves()[best_k] as int));
        }
        self.node.play(bestmove);
        let nodes = self.nodes;
        EngineMove { cell: bestmove, score: bestcase, nodes, win_percent: (1 + bestcase) * 50 }
    }
}


} // verus!
