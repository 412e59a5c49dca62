use vstd::prelude::*;

verus! {

/// Whether bit `c` of the mask `m` is set.
pub open spec fn has_bit(m: u16, c: int) -> bool {
    m & (1u16 << (c as u16)) != 0
}

proof fn lemma_set_bit(m: u16, i: u16, c: u16)
    by (bit_vector)
    requires
        i < 9,
        c < 9,
    ensures
        ((m | (1u16 << i)) & (1u16 << c) != 0) == ((m & (1u16 << c) != 0) || i == c),
        ((m & !(1u16 << i)) & (1u16 << c) != 0) == ((m & (1u16 << c) != 0) && i != c),
{
}

proof fn lemma_disjoint(x: u16, o: u16, c: u16)
    by (bit_vector)
    requires
        x & o == 0,
    ensures
        !(x & (1u16 << c) != 0 && o & (1u16 << c) != 0),
{
}

proof fn lemma_masks(x: u16, o: u16, i: u16)
    by (bit_vector)
    requires
        i < 9,
        x & o == 0,
        x < 512,
        o < 512,
    ensures
        o & x == 0,
        o & (1u16 << i) == 0 ==> (x | (1u16 << i)) & o == 0,
        x & (1u16 << i) == 0 ==> x & (o | (1u16 << i)) == 0,
        (x | (1u16 << i)) < 512,
        (x & !(1u16 << i)) < 512,
        (x & !(1u16 << i)) & o == 0,
        x & (o & !(1u16 << i)) == 0,
{
}

/// The abstract board: `cells[c]` is 1 for the first player, -1 for the
/// second and 0 for an empty cell; `turn` is the sign of the side to move;
/// `history` lists the cells played, oldest first.
pub struct Board {
    pub cells: Seq<int>,
    pub turn: int,
    pub history: Seq<i8>,
}

impl Board {
    pub open spec fn valid(self) -> bool {
        &&& self.cells.len() == 9
        &&& forall|c: int| 0 <= c < 9 ==> -1 <= #[trigger] self.cells[c] <= 1
        &&& self.turn == 1 || self.turn == -1
        &&& forall|k: int| 0 <= k < self.history.len() ==> 0 <= #[trigger] self.history[k] < 9
    }

    /// The board after the side to move takes cell `c`.
    pub open spec fn played(self, c: int) -> Board {
        Board {
            cells: self.cells.update(c, self.turn),
            turn: -self.turn,
            history: self.history.push(c as i8),
        }
    }

    /// The board after the last move is taken back: the turn goes back to
    /// the mover, and the mover's mark on the last cell played is cleared.
    pub open spec fn unplayed(self) -> Board {
        let mover = -self.turn;
        let last = self.history.last() as int;
        Board {
            cells: if self.cells[last] == mover {
                self.cells.update(last, 0)
            } else {
                self.cells
            },
            turn: mover,
            history: self.history.drop_last(),
        }
    }

    /// The board with the two players' cells exchanged.
    pub open spec fn swapped(self) -> Board {
        Board { cells: Seq::new(9, |c: int| -self.cells[c]), ..self }
    }

    pub open spec fn is_free(self, c: int) -> bool {
        0 <= c < 9 && self.cells[c] == 0
    }

    pub open spec fn is_full(self) -> bool {
        forall|c: int| 0 <= c < 9 ==> self.cells[c] != 0
    }

    /// 1 if the first player holds a line, -1 if the second does, else 0;
    /// where both do, the first such line in order decides.
    pub open spec fn eval(self) -> int {
        winner_from(self.cells, 0)
    }

    /// The free cells, in ascending order.
    pub open spec fn moves(self) -> Seq<i8> {
        free_from(self.cells, 0)
    }

    /// The number of taken cells.
    pub open spec fn taken(self) -> nat {
        taken_from(self.cells, 0)
    }

    pub open spec fn is_over(self) -> bool {
        self.eval() != 0 || self.is_full()
    }
}

/// The three cells of line `k`: the two diagonals first, then the rows,
/// then the columns.
pub open spec fn line(k: int) -> (int, int, int) {
    if k == 0 {
        (0, 4, 8)
    } else if k == 1 {
        (2, 4, 6)
    } else if k < 5 {
        ((k - 2) * 3, (k - 2) * 3 + 1, (k - 2) * 3 + 2)
    } else {
        (k - 5, k - 2, k + 1)
    }
}

/// The sign of the player holding all three cells of line `k`, or 0.
pub open spec fn line_owner(cells: Seq<int>, k: int) -> int {
    let (a, b, c) = line(k);
    if cells[a] != 0 && cells[a] == cells[b] && cells[b] == cells[c] {
        cells[a]
    } else {
        0
    }
}

/// The owner of the first line, from line `k` on, that one player holds whole.
pub open spec fn winner_from(cells: Seq<int>, k: int) -> int
    decreases 8 - k,
{
    if k >= 8 {
        0
    } else if line_owner(cells, k) != 0 {
        line_owner(cells, k)
    } else {
        winner_from(cells, k + 1)
    }
}

proof fn lemma_winner_skip(cells: Seq<int>, j: int, k: int)
    requires
        0 <= j <= k <= 8,
        forall|m: int| j <= m < k ==> line_owner(cells, m) == 0,
    ensures
        winner_from(cells, j) == winner_from(cells, k),
    decreases k - j,
{
    if j < k {
        lemma_winner_skip(cells, j + 1, k);
    }
}

/// The cells `k..9` whose bit is set in `m`, in ascending order.
pub open spec fn mask_cells(m: u16, k: int) -> Seq<i8>
    decreases 9 - k,
{
    if k >= 9 {
        Seq::empty()
    } else if has_bit(m, k) {
        seq![k as i8].add(mask_cells(m, k + 1))
    } else {
        mask_cells(m, k + 1)
    }
}

/// The free cells `k..9`, in ascending order.
pub open spec fn free_from(cells: Seq<int>, k: int) -> Seq<i8>
    decreases 9 - k,
{
    if k >= 9 {
        Seq::empty()
    } else if cells[k] == 0 {
        seq![k as i8].add(free_from(cells, k + 1))
    } else {
        free_from(cells, k + 1)
    }
}

/// The number of taken cells among `k..9`.
pub open spec fn taken_from(cells: Seq<int>, k: int) -> nat
    decreases 9 - k,
{
    if k >= 9 {
        0
    } else if cells[k] != 0 {
        1 + taken_from(cells, k + 1)
    } else {
        taken_from(cells, k + 1)
    }
}

proof fn lemma_shift_bit(m: u16, j: u16)
    by (bit_vector)
    requires
        j < 16,
    ensures
        ((m >> j) & 1u16 == 0u16) == (m & (1u16 << j) == 0),
{
}

proof fn lemma_clear_lowest(bb: u16, t: u16, s: u16, c: u16)
    by (bit_vector)
    requires
        t < 16,
        c < 16,
        s == 16 - t,
        bb & (1u16 << t) != 0,
        bb << s == 0,
    ensures
        ((bb & ((bb - 1) as u16)) & (1u16 << c) != 0) == ((bb & (1u16 << c) != 0) && c != t),
{
}

proof fn lemma_mask_skip(m: u16, j: int, k: int)
    requires
        0 <= j <= k <= 9,
        forall|c: int| j <= c < k ==> !has_bit(m, c),
    ensures
        mask_cells(m, j) == mask_cells(m, k),
    decreases k - j,
{
    if j < k {
        lemma_mask_skip(m, j + 1, k);
    }
}

proof fn lemma_mask_same(m: u16, n: u16, k: int)
    requires
        0 <= k <= 9,
        forall|c: int| k <= c < 9 ==> has_bit(m, c) == has_bit(n, c),
    ensures
        mask_cells(m, k) == mask_cells(n, k),
    decreases 9 - k,
{
    if k < 9 {
        lemma_mask_same(m, n, k + 1);
    }
}

proof fn lemma_mask_free(m: u16, cells: Seq<int>, k: int)
    requires
        0 <= k <= 9,
        forall|c: int| k <= c < 9 ==> has_bit(m, c) == (cells[c] == 0),
    ensures
        mask_cells(m, k) == free_from(cells, k),
    decreases 9 - k,
{
    if k < 9 {
        lemma_mask_free(m, cells, k + 1);
    }
}

proof fn lemma_free_taken(cells: Seq<int>, k: int)
    requires
        0 <= k <= 9,
    ensures
        free_from(cells, k).len() + taken_from(cells, k) == 9 - k,
        forall|i: int| 0 <= i < free_from(cells, k).len() ==>
            k <= #[trigger] free_from(cells, k)[i] < 9 && cells[free_from(cells, k)[i] as int] == 0,
    decreases 9 - k,
{
    if k < 9 {
        lemma_free_taken(cells, k + 1);
    }
}

/// Finds the index of the lowest set bit of `bb` (16 when `bb` is 0).
pub fn lsb(bb: u16) -> (r: i8)
    ensures
        r as u32 == bb.trailing_zeros(),
        bb == 0 ==> r == 16,
        bb != 0 ==> 0 <= r < 16 && has_bit(bb, r as int) && forall|j: int|
            0 <= j < r ==> !has_bit(bb, j),
{
    let t: u32 = bb.trailing_zeros();
    proof {
        vstd::std_specs::bits::axiom_u16_trailing_zeros(bb);
        if bb != 0 {
            lemma_shift_bit(bb, t as u16);
            assert forall|j: int| 0 <= j < t implies !has_bit(bb, j) by {
                lemma_shift_bit(bb, j as u16);
            }
        }
    }
    t as i8
}

proof fn lemma_winner_swapped(b: Board, k: int)
    requires
        b.valid(),
        0 <= k <= 8,
    ensures
        winner_from(b.swapped().cells, k) == -winner_from(b.cells, k),
    decreases 8 - k,
{
    if k < 8 {
        lemma_winner_swapped(b, k + 1);
        let (x, y, z) = line(k);
        assert(0 <= x < 9 && 0 <= y < 9 && 0 <= z < 9);
        assert(line_owner(b.swapped().cells, k) == -line_owner(b.cells, k));
    }
}

/// Playing a free cell and then taking the move back restores the cells,
/// the turn and the history exactly.
pub proof fn lemma_play_unplay(b: Board, c: int)
    requires
        b.valid(),
        b.is_free(c),
    ensures
        b.played(c).unplayed() == b,
{
    let p = b.played(c);
    assert(p.history.last() as int == c);
    assert(p.unplayed().cells =~= b.cells);
    assert(p.unplayed().history =~= b.history);
}

/// The free cells and the taken cells together number nine.
pub proof fn lemma_moves_plus_taken(b: Board)
    requires
        b.valid(),
    ensures
        b.moves().len() + b.taken() == 9,
{
    lemma_free_taken(b.cells, 0);
}

/// Exchanging the players' cells negates the evaluation, and a board where
/// no line is held whole evaluates to 0.
pub proof fn lemma_eval_antisymmetric(b: Board)
    requires
        b.valid(),
    ensures
        b.swapped().eval() == -b.eval(),
        (forall|k: int| 0 <= k < 8 ==> line_owner(b.cells, k) == 0) ==> b.eval() == 0,
{
    lemma_winner_swapped(b, 0);
    if forall|k: int| 0 <= k < 8 ==> line_owner(b.cells, k) == 0 {
        lemma_winner_skip(b.cells, 0, 8);
    }
}

proof fn lemma_free_update(cells: Seq<int>, m: int, t: int, k: int)
    requires
        cells.len() == 9,
        0 <= m < 9,
        cells[m] == 0,
        t != 0,
        0 <= k <= 9,
    ensures
        free_from(cells.update(m, t), k).len() + (if k <= m { 1int } else { 0 }) == free_from(cells, k).len(),
    decreases 9 - k,
{
    if k < 9 {
        lemma_free_update(cells, m, t, k + 1);
    }
}

proof fn lemma_free_nonempty(cells: Seq<int>, k: int, c: int)
    requires
        0 <= k <= c < 9,
        cells[c] == 0,
    ensures
        free_from(cells, k).len() > 0,
    decreases 9 - k,
{
    if k < c {
        lemma_free_nonempty(cells, k + 1, c);
    }
}

proof fn lemma_winner_range(cells: Seq<int>, k: int)
    requires
        cells.len() == 9,
        forall|c: int| 0 <= c < 9 ==> -1 <= #[trigger] cells[c] <= 1,
        0 <= k <= 8,
    ensures
        -1 <= winner_from(cells, k) <= 1,
    decreases 8 - k,
{
    if k < 8 {
        lemma_winner_range(cells, k + 1);
        let (x, y, z) = line(k);
        assert(0 <= x < 9);
    }
}

/// Facts on a valid board: its moves are free cells, a board that is not
/// full has a move, and its evaluation is -1, 0 or 1.
pub proof fn lemma_board_facts(b: Board)
    requires
        b.valid(),
    ensures
        b.moves().len() <= 9,
        forall|i: int| 0 <= i < b.moves().len() ==> b.is_free(#[trigger] b.moves()[i] as int),
        !b.is_full() ==> b.moves().len() > 0,
        -1 <= b.eval() <= 1,
{
    lemma_free_taken(b.cells, 0);
    lemma_winner_range(b.cells, 0);
    if !b.is_full() {
        let c = choose|c: int| 0 <= c < 9 && b.cells[c] == 0;
        lemma_free_nonempty(b.cells, 0, c);
    }
}

/// Playing a free cell keeps the board valid and leaves one move fewer.
pub proof fn lemma_child(b: Board, m: int)
    requires
        b.valid(),
        b.is_free(m),
    ensures
        b.played(m).valid(),
        b.played(m).moves().len() + 1 == b.moves().len(),
{
    lemma_free_update(b.cells, m, b.turn, 0);
    let h = b.played(m).history;
    assert forall|k: int| 0 <= k < h.len() implies 0 <= #[trigger] h[k] < 9 by {
        if k < b.history.len() {
            assert(h[k] == b.history[k]);
        }
    }
}

/// A tic-tac-toe position: one bit set per player, the side to move, and the
/// stack of cells played.
pub struct State {
    position: [u16; 2],
    turn: i16,
    movestack: Vec<i8>,
}

impl View for State {
    type V = Board;

    closed spec fn view(&self) -> Board {
        let x = self.position[0];
        let o = self.position[1];
        Board {
            cells: Seq::new(
                9,
                |c: int|
                    if has_bit(x, c) {
                        1
                    } else if has_bit(o, c) {
                        -1
                    } else {
                        0
                    },
            ),
            turn: self.turn as int,
            history: self.movestack@,
        }
    }
}

impl State {
    pub closed spec fn masks_ok(&self) -> bool {
        &&& self.position[0] & self.position[1] == 0
        &&& self.position[0] < 512
        &&& self.position[1] < 512
    }

    /// Well-formedness: the two players' cells are disjoint and within the
    /// board, and the view is a valid board.
    pub open spec fn wf(&self) -> bool {
        self.masks_ok() && self@.valid()
    }

    /// The view of the starting board.
    pub open spec fn new_spec() -> Board {
        Board { cells: Seq::new(9, |c: int| 0int), turn: 1, history: Seq::empty() }
    }

    /// The empty board with the first player to move.
    pub fn new() -> (s: State)
        ensures
            s.wf(),
            s@ == State::new_spec(),
    {
        let s = State { position: [0, 0], turn: 1, movestack: Vec::new() };
        proof {
            assert(0u16 & 0u16 == 0) by (bit_vector);
            assert forall|c: int| 0 <= c < 9 implies !has_bit(0u16, c) by {
                let cc = c as u16;
                assert(0u16 & (1u16 << cc) == 0) by (bit_vector);
            }
            assert(s@.cells =~= Seq::new(9, |c: int| 0int));
            assert(s@.history =~= Seq::<i8>::empty());
        }
        s
    }

    /// Marks cell `i` for the side to move, passes the turn and records the move.
    pub fn play(&mut self, i: i8)
        requires
            old(self).wf(),
            old(self)@.is_free(i as int),
        ensures
            final(self).wf(),
            final(self)@ == old(self)@.played(i as int),
    {
        let ghost pre = self@;
        let bit: u16 = 1u16 << (i as u16);
        proof {
            lemma_masks(self.position[0], self.position[1], i as u16);
            lemma_masks(self.position[1], self.position[0], i as u16);
            let ii = i as u16;
            assert forall|c: int| 0 <= c < 9 implies
                (has_bit(self.position[0] | bit, c) == (has_bit(self.position[0], c) || c == i))
                && (has_bit(self.position[1] | bit, c) == (has_bit(self.position[1], c) || c == i)) by {
                lemma_set_bit(self.position[0], ii, c as u16);
                lemma_set_bit(self.position[1], ii, c as u16);
            }
        }
        if self.turn == 1 {
            self.position[0] = self.position[0] | bit;
        } else {
            self.position[1] = self.position[1] | bit;
        }
        self.turn = -self.turn;
        self.movestack.push(i);
        assert(self@.cells =~= pre.played(i as int).cells);
        assert(self@.history =~= pre.played(i as int).history);
    }

    /// Takes back the last move: the turn returns to the mover, whose mark
    /// on the last cell played is cleared.
    pub fn unplay(&mut self)
        requires
            old(self).wf(),
            old(self)@.history.len() > 0,
        ensures
            final(self).wf(),
            final(self)@ == old(self)@.unplayed(),
    {
        let ghost pre = self@;
        let prevmove: i8 = self.movestack.pop().unwrap();
        assert(pre.history[pre.history.len() - 1] == prevmove);
        let bit: u16 = 1u16 << (prevmove as u16);
        proof {
            lemma_masks(self.position[0], self.position[1], prevmove as u16);
            lemma_masks(self.position[1], self.position[0], prevmove as u16);
            let ii = prevmove as u16;
            assert forall|c: int| 0 <= c < 9 implies
                (has_bit(self.position[0] & !bit, c) == (has_bit(self.position[0], c) && c != prevmove))
                && (has_bit(self.position[1] & !bit, c) == (has_bit(self.position[1], c) && c != prevmove))
                && !(has_bit(self.position[0], c) && has_bit(self.position[1], c)) by {
                lemma_set_bit(self.position[0], ii, c as u16);
                lemma_set_bit(self.position[1], ii, c as u16);
                lemma_disjoint(self.position[0], self.position[1], c as u16);
            }
        }
        if self.turn == 1 {
            self.position[1] = self.position[1] & !bit;
        } else {
            self.position[0] = self.position[0] & !bit;
        }
        self.turn = -self.turn;
        assert(pre.history.last() == prevmove);
        assert(self@.cells =~= pre.unplayed().cells);
        assert(self@.history =~= pre.unplayed().history);
    }

    /// Whether cell `i` is taken.
    pub fn pos_filled(&self, i: i8) -> (r: bool)
        requires
            self.wf(),
            0 <= i < 9,
        ensures
            r == (self@.cells[i as int] != 0),
    {
        let m: u16 = self.position[0] | self.position[1];
        proof {
            let x = self.position[0];
            let o = self.position[1];
            let ii = i as u16;
            assert((m & (1u16 << ii) != 0) == ((x & (1u16 << ii) != 0) || (o & (1u16 << ii) != 0)))
                by (bit_vector)
                requires
                    m == x | o,
            ;
        }
        if (m & (1u16 << (i as u16))) != 0 {
            true
        } else {
            false
        }
    }

    /// Whether the first player holds cell `i`; it tells the owner apart only
    /// for a cell that is taken.
    pub fn player_at(&self, i: i8) -> (r: bool)
        requires
            self.wf(),
            0 <= i < 9,
        ensures
            r == (self@.cells[i as int] == 1),
    {
        if (self.position[0] & (1u16 << (i as u16))) != 0 {
            true
        } else {
            false
        }
    }

    /// Whether every cell is taken.
    pub fn is_full(&self) -> (r: bool)
        requires
            self.wf(),
        ensures
            r == self@.is_full(),
    {
        let mut i: i8 = 0;
        while i < 9
            invariant
                self.wf(),
                0 <= i <= 9,
                forall|c: int| 0 <= c < i ==> self@.cells[c] != 0,
            decreases 9 - i,
        {
            if !self.pos_filled(i) {
                return false;
            }
            i = i + 1;
        }
        true
    }

    /// The sign of line `a`, `b`, `c` if one player holds all three cells.
    fn line_sign(&self, a: i8, b: i8, c: i8) -> (r: i16)
        requires
            self.wf(),
            0 <= a < 9,
            0 <= b < 9,
            0 <= c < 9,
        ensures
            r == (if self@.cells[a as int] != 0 && self@.cells[a as int] == self@.cells[b as int]
                && self@.cells[b as int] == self@.cells[c as int] {
                self@.cells[a as int]
            } else {
                0
            }),
    {
        if self.pos_filled(a) && self.pos_filled(b) && self.pos_filled(c) {
            if self.player_at(a) == self.player_at(b) && self.player_at(b) == self.player_at(c) {
                if self.player_at(a) {
                    return 1;
                } else {
                    return -1;
                }
            }
        }
        0
    }

    /// 1 if the first player holds a line, -1 if the second does, 0 otherwise.
    /// Lines are tried in a fixed order (diagonals, rows, columns) and the
    /// first one held decides.
    pub fn evaluate(&self) -> (r: i16)
        requires
            self.wf(),
        ensures
            r == self@.eval(),
    {
        let ghost cells = self@.cells;
        let d1 = self.line_sign(0, 4, 8);
        if d1 != 0 {
            return d1;
        }
        let d2 = self.line_sign(2, 4, 6);
        if d2 != 0 {
            proof { lemma_winner_skip(cells, 0, 1); }
            return d2;
        }
        let mut i: i8 = 0;
        while i < 3
            invariant
                self.wf(),
                cells == self@.cells,
                0 <= i <= 3,
                forall|m: int| 0 <= m < 2 + i ==> line_owner(cells, m) == 0,
            decreases 3 - i,
        {
            let r = self.line_sign(i * 3, i * 3 + 1, i * 3 + 2);
            assert(line(2 + i as int) == (i * 3, i * 3 + 1, i * 3 + 2));
            if r != 0 {
                proof { lemma_winner_skip(cells, 0, 2 + i as int); }
                return r;
            }
            i = i + 1;
        }
        let mut i: i8 = 0;
        while i < 3
            invariant
                self.wf(),
                cells == self@.cells,
                0 <= i <= 3,
                forall|m: int| 0 <= m < 5 + i ==> line_owner(cells, m) == 0,
            decreases 3 - i,
        {
            let r = self.line_sign(i, i + 3, i + 6);
            assert(line(5 + i as int) == (i as int, i + 3, i + 6));
            if r != 0 {
                proof { lemma_winner_skip(cells, 0, 5 + i as int); }
                return r;
            }
            i = i + 1;
        }
        proof { lemma_winner_skip(cells, 0, 8); }
        0
    }

    /// The sign of the side to move: 1 for the first player, -1 for the second.
    pub fn turn(&self) -> (r: i16)
        requires
            self.wf(),
        ensures
            r == self@.turn,
    {
        self.turn
    }

    /// Passes the turn without a move.
    pub fn pass_turn(&mut self)
        requires
            old(self).wf(),
        ensures
            final(self).wf(),
            final(self)@ == (Board { turn: -old(self)@.turn, ..old(self)@ }),
    {
        self.turn = -self.turn;
    }

    /// Whether a player holds a line or the board is full.
    pub fn is_game_over(&self) -> (r: bool)
        requires
            self.wf(),
        ensures
            r == self@.is_over(),
    {
        self.evaluate() != 0 || self.is_full()
    }

    /// The number of free cells.
    pub fn num_legal_moves(&self) -> (r: u32)
        requires
            self.wf(),
        ensures
            r == 9 - self@.taken(),
            r == self@.moves().len(),
    {
        let mut n: u32 = 0;
        let mut i: i8 = 9;
        proof { lemma_free_taken(self@.cells, 0); }
        while i > 0
            invariant
                self.wf(),
                0 <= i <= 9,
                n == taken_from(self@.cells, i as int),
            decreases i,
        {
            i = i - 1;
            proof { lemma_free_taken(self@.cells, i as int + 1); }
            if self.pos_filled(i) {
                n = n + 1;
            }
        }
        9 - n
    }

    /// The free cells, in ascending order.
    pub fn legal_moves(&self) -> (r: Vec<i8>)
        requires
            self.wf(),
        ensures
            r@ == self@.moves(),
    {
        let mut moves: Vec<i8> = Vec::new();
        let x = self.position[0];
        let o = self.position[1];
        let mut bb: u16 = !(x | o) & 0b111111111u16;
        proof {
            assert forall|c: int| 0 <= c < 9 implies has_bit(bb, c) == (self@.cells[c] == 0) by {
                let cc = c as u16;
                assert((bb & (1u16 << cc) != 0) == (x & (1u16 << cc) == 0 && o & (1u16 << cc) == 0))
                    by (bit_vector)
                    requires
                        bb == !(x | o) & 0b111111111u16,
                        cc < 9,
                ;
            }
            lemma_mask_free(bb, self@.cells, 0);
            assert(bb < 512) by (bit_vector)
                requires
                    bb == !(x | o) & 0b111111111u16,
            ;
        }
        while bb != 0
            invariant
                self.wf(),
                bb < 512,
                moves@.add(mask_cells(bb, 0)) == self@.moves(),
            decreases bb,
        {
            let t = lsb(bb);
            let ghost old_bb = bb;
            let ghost old_moves = moves@;
            proof {
                let tt = t as u16;
                if t >= 9 {
                    assert(bb & (1u16 << tt) == 0) by (bit_vector)
                        requires
                            bb < 512,
                            9 <= tt < 16,
                    ;
                }
                lemma_mask_skip(bb, 0, t as int);
                vstd::std_specs::bits::axiom_u16_trailing_zeros(bb);
            }
            moves.push(t);
            bb = bb & (bb - 1);
            proof {
                let tt = t as u16;
                let s = (16 - tt) as u16;
                assert(old_bb << s == 0);
                assert forall|c: int| (t as int) < c < 9 implies has_bit(bb, c) == has_bit(old_bb, c) by {
                    lemma_clear_lowest(old_bb, tt, s, c as u16);
                }
                assert forall|c: int| 0 <= c <= t implies !has_bit(bb, c) by {
                    if c < t {
                        assert(!has_bit(old_bb, c));
                    }
                    lemma_clear_lowest(old_bb, tt, s, c as u16);
                }
                lemma_mask_same(bb, old_bb, t + 1);
                lemma_mask_skip(bb, 0, t + 1);
                assert(bb < 512 && bb < old_bb) by (bit_vector)
                    requires
                        old_bb < 512,
                        old_bb != 0,
                        bb == old_bb & ((old_bb - 1) as u16),
                ;
                assert(mask_cells(old_bb, t as int) == seq![t].add(mask_cells(old_bb, t + 1)));
                assert(moves@ =~= old_moves.push(t));
                assert(moves@.add(mask_cells(bb, 0)) =~= old_moves.add(mask_cells(old_bb, 0)));
            }
        }
        proof {
            assert forall|c: int| 0 <= c < 9 implies !has_bit(bb, c) by {
                let cc = c as u16;
                assert(0u16 & (1u16 << cc) == 0) by (bit_vector);
            }
            lemma_mask_skip(bb, 0, 9);
            assert(moves@ =~= moves@.add(mask_cells(bb, 0)));
        }
        moves
    }

    /// Scores a position that is not over; no such scoring is applied yet.
    pub fn heuristic_value(&self) -> (r: i8)
        ensures
            r == 0,
    {
        0
    }
}



} // verus!
