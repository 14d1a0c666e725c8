use vstd::prelude::*;

use crate::defines::{
    all_line_groups, all_lines, column_lines, diagonal_lines, line_groups_match, line_wf,
    lines_match, row_lines, get_result_lines, lemma_all_lines_wf, Mark, Score, BOARD_SIZE,
};

verus! {

/// Error returned when a caller hands `make_move_safe` a move that is
/// not currently legal.
#[derive(Debug, Copy, Clone, PartialEq, Eq, Structural)]
pub struct InvalidMove {
    pub attempted: usize,
}

/// The mark of the opposing player; `NoPlayer` has no opponent.
pub open spec fn other_player(m: Mark) -> Mark {
    match m {
        Mark::X => Mark::O,
        Mark::O => Mark::X,
        Mark::NoPlayer => Mark::NoPlayer,
    }
}

/// The owner of a line, if its three cells carry the same player's mark.
pub open spec fn line_owner(pos: Seq<Mark>, line: Seq<usize>) -> Option<Mark> {
    if pos[line[0] as int] != Mark::NoPlayer && pos[line[1] as int] == pos[line[0] as int]
        && pos[line[2] as int] == pos[line[0] as int] {
        Some(pos[line[0] as int])
    } else {
        None
    }
}

/// The owner of the first complete line, scanning `lines` in order.
pub open spec fn first_winner_from(pos: Seq<Mark>, lines: Seq<Seq<usize>>) -> Option<Mark>
    decreases lines.len(),
{
    if lines.len() == 0 {
        None
    } else if line_owner(pos, lines[0]) is Some {
        line_owner(pos, lines[0])
    } else {
        first_winner_from(pos, lines.drop_first())
    }
}

/// The owner of the first complete line of the whole board, walking
/// the lines in the order the result check uses.
pub open spec fn first_winner(pos: Seq<Mark>) -> Option<Mark> {
    first_winner_from(pos, all_lines())
}

/// The indices below `k` whose cell is empty, in ascending order.
pub open spec fn empty_cells_upto(pos: Seq<Mark>, k: nat) -> Seq<usize>
    decreases k,
{
    if k == 0 {
        Seq::empty()
    } else if pos[k - 1] == Mark::NoPlayer {
        empty_cells_upto(pos, (k - 1) as nat).push((k - 1) as usize)
    } else {
        empty_cells_upto(pos, (k - 1) as nat)
    }
}

/// All empty cells of the board, in ascending order.
pub open spec fn empty_cells(pos: Seq<Mark>) -> Seq<usize> {
    empty_cells_upto(pos, pos.len())
}

/// How many cells are still empty.
pub open spec fn count_empty(pos: Seq<Mark>) -> nat {
    empty_cells(pos).len()
}

/// Every cell carries a mark.
pub open spec fn board_is_full(pos: Seq<Mark>) -> bool {
    count_empty(pos) == 0
}

/// The game result seen from `player_jm`'s perspective: a win if the
/// first complete line belongs to `player_jm`, a loss if it belongs to
/// the opponent, a draw on a full board without a complete line, and
/// `None` while the game is still open.
pub open spec fn spec_result(pos: Seq<Mark>, player_jm: Mark) -> Option<Score> {
    match first_winner(pos) {
        Some(w) => if w == player_jm {
            Some(Score::Win)
        } else {
            Some(Score::Loss)
        },
        None => if board_is_full(pos) {
            Some(Score::Draw)
        } else {
            None
        },
    }
}

/// The game is over: someone completed a line or the board is full.
pub open spec fn is_terminal(pos: Seq<Mark>) -> bool {
    first_winner(pos) is Some || board_is_full(pos)
}

/// The position, mover and history reached from the given state by
/// undoing the last `k` moves.
pub open spec fn unwound(
    pos: Seq<Mark>,
    player_jm: Mark,
    hist: Seq<usize>,
    k: nat,
) -> (Seq<Mark>, Mark, Seq<usize>)
    decreases k,
{
    if k == 0 || hist.len() == 0 {
        (pos, player_jm, hist)
    } else {
        unwound(
            pos.update(hist.last() as int, Mark::NoPlayer),
            other_player(player_jm),
            hist.drop_last(),
            (k - 1) as nat,
        )
    }
}

/// The 3x3 game position: one mark per cell, the player who made the
/// last move, the stack of moves played so far, and the table of
/// winning lines the result check walks.
#[derive(Debug)]
pub struct Board {
    pub pos: Vec<Mark>,
    pub player_just_moved: Mark,
    pub history: Vec<usize>,
    pub result_lines: Vec<Vec<Vec<usize>>>,
}

impl Board {
    /// Structural well-formedness: nine cells, a real player on the
    /// move marker, in-range history entries and the canonical line
    /// table.
    pub open spec fn wf(&self) -> bool {
        &&& self.pos@.len() == BOARD_SIZE
        &&& self.player_just_moved != Mark::NoPlayer
        &&& forall|k: int| 0 <= k < self.history@.len() ==> self.history@[k] < BOARD_SIZE
        &&& line_groups_match(self.result_lines@, all_line_groups())
    }

    /// The caller-visible state of two boards is identical.
    pub open spec fn same_state(&self, other: &Board) -> bool {
        &&& self.pos@ == other.pos@
        &&& self.player_just_moved == other.player_just_moved
        &&& self.history@ == other.history@
    }

    /// The moves that may be played now: every empty cell, unless the
    /// game is already decided.
    pub open spec fn spec_legal_moves(&self) -> Seq<usize> {
        if is_terminal(self.pos@) {
            Seq::empty()
        } else {
            empty_cells(self.pos@)
        }
    }

    /// A fresh, empty board. `O` is recorded as having just moved, so
    /// `X` moves first.
    pub fn new() -> (b: Board)
        ensures
            b.wf(),
            b.pos@.len() == BOARD_SIZE,
            forall|k: int| 0 <= k < BOARD_SIZE ==> b.pos@[k] == Mark::NoPlayer,
            b.player_just_moved == Mark::O,
            b.history@ == Seq::<usize>::empty(),
    {
        let mut pos: Vec<Mark> = Vec::new();
        let mut i: usize = 0;
        while i < BOARD_SIZE
            invariant
                i <= BOARD_SIZE,
                pos@.len() == i,
                forall|k: int| 0 <= k < i ==> pos@[k] == Mark::NoPlayer,
            decreases BOARD_SIZE - i,
        {
            pos.push(Mark::NoPlayer);
            i = i + 1;
        }
        Board {
            pos,
            player_just_moved: Mark::O,
            history: Vec::new(),
            result_lines: get_result_lines(),
        }
    }

    /// An independent copy of this board, for use as the scratch state
    /// of a simulation.
    pub fn duplicate(&self) -> (b: Board)
        requires
            self.wf(),
        ensures
            b.wf(),
            b.same_state(self),
    {
        let mut pos: Vec<Mark> = Vec::new();
        let mut i: usize = 0;
        while i < self.pos.len()
            invariant
                i <= self.pos@.len(),
                pos@ == self.pos@.take(i as int),
            decreases self.pos@.len() - i,
        {
            pos.push(self.pos[i]);
            assert(pos@ =~= self.pos@.take(i + 1));
            i = i + 1;
        }
        assert(pos@ =~= self.pos@);
        let mut history: Vec<usize> = Vec::new();
        let mut j: usize = 0;
        while j < self.history.len()
            invariant
                j <= self.history@.len(),
                history@ == self.history@.take(j as int),
            decreases self.history@.len() - j,
        {
            history.push(self.history[j]);
            assert(history@ =~= self.history@.take(j + 1));
            j = j + 1;
        }
        assert(history@ =~= self.history@);
        Board {
            pos,
            player_just_moved: self.player_just_moved,
            history,
            result_lines: get_result_lines(),
        }
    }

    /// The player on the move after `player_jm` has just moved.
    pub fn update_player_jm(&self, player_jm: Mark) -> (r: Mark)
        ensures
            r == other_player(player_jm),
    {
        match player_jm {
            Mark::X => Mark::O,
            Mark::O => Mark::X,
            Mark::NoPlayer => Mark::NoPlayer,
        }
    }

    /// Plays `move_int`, which must name an empty cell. The mover's
    /// mark is placed, the turn flips and the move is recorded.
    pub fn make_move(&mut self, move_int: usize)
        requires
            old(self).wf(),
            move_int < BOARD_SIZE,
            old(self).pos@[move_int as int] == Mark::NoPlayer,
        ensures
            final(self).wf(),
            final(self).player_just_moved == other_player(old(self).player_just_moved),
            final(self).pos@ == old(self).pos@.update(
                move_int as int,
                final(self).player_just_moved,
            ),
            final(self).history@ == old(self).history@.push(move_int),
            final(self).result_lines@ == old(self).result_lines@,
    {
        let mover = self.update_player_jm(self.player_just_moved);
        self.player_just_moved = mover;
        self.pos[move_int] = mover;
        self.history.push(move_int);
    }

    /// Plays `move_int` only if it is legal now; otherwise reports the
    /// rejected move and leaves the board untouched.
    pub fn make_move_safe(&mut self, move_int: usize) -> (r: Result<(), InvalidMove>)
        requires
            old(self).wf(),
        ensures
            final(self).wf(),
            old(self).spec_legal_moves().contains(move_int) ==> {
                &&& r is Ok
                &&& final(self).player_just_moved == other_player(old(self).player_just_moved)
                &&& final(self).pos@ == old(self).pos@.update(
                    move_int as int,
                    final(self).player_just_moved,
                )
                &&& final(self).history@ == old(self).history@.push(move_int)
            },
            !old(self).spec_legal_moves().contains(move_int) ==> {
                &&& r == Result::<(), InvalidMove>::Err(InvalidMove { attempted: move_int })
                &&& final(self).same_state(old(self))
            },
    {
        let moves = self.get_moves();
        let mut found = false;
        let mut k: usize = 0;
        while k < moves.len()
            invariant
                k <= moves@.len(),
                found <==> moves@.take(k as int).contains(move_int),
            decreases moves@.len() - k,
        {
            if moves[k] == move_int {
                found = true;
            }
            proof {
                assert(moves@.take(k + 1) =~= moves@.take(k as int).push(moves@[k as int]));
                vstd::seq_lib::lemma_seq_contains_after_push(
                    moves@.take(k as int),
                    moves@[k as int],
                    move_int,
                );
            }
            k = k + 1;
        }
        assert(moves@.take(moves@.len() as int) =~= moves@);
        if !found {
            return Err(InvalidMove { attempted: move_int });
        }
        proof {
            lemma_empty_cells_upto_contains(self.pos@, self.pos@.len(), move_int);
        }
        self.make_move(move_int);
        Ok(())
    }

    /// Undoes the most recent move: the cell it filled is emptied and
    /// the turn flips back.
    pub fn take_move(&mut self)
        requires
            old(self).wf(),
            old(self).history@.len() > 0,
        ensures
            final(self).wf(),
            final(self).pos@ == old(self).pos@.update(
                old(self).history@.last() as int,
                Mark::NoPlayer,
            ),
            final(self).player_just_moved == other_player(old(self).player_just_moved),
            final(self).history@ == old(self).history@.drop_last(),
            final(self).result_lines@ == old(self).result_lines@,
    {
        let popped = self.history.pop();
        match popped {
            Some(move_int) => {
                assert(move_int < BOARD_SIZE);
                self.pos[move_int] = Mark::NoPlayer;
                let mover = self.update_player_jm(self.player_just_moved);
                self.player_just_moved = mover;
                assert(self.history@ =~= old(self).history@.drop_last());
            },
            None => {
                assert(false);
            },
        }
    }

    /// The legal moves of the current position: all empty cells in
    /// ascending order, or nothing once the game is decided.
    pub fn get_moves(&self) -> (r: Vec<usize>)
        requires
            self.wf(),
        ensures
            r@ == self.spec_legal_moves(),
    {
        let result = self.get_result(self.player_just_moved);
        match result {
            Some(_) => Vec::new(),
            None => {
                let mut moves: Vec<usize> = Vec::new();
                let mut i: usize = 0;
                while i < BOARD_SIZE
                    invariant
                        i <= BOARD_SIZE,
                        self.pos@.len() == BOARD_SIZE,
                        moves@ == empty_cells_upto(self.pos@, i as nat),
                    decreases BOARD_SIZE - i,
                {
                    if self.pos[i] == Mark::NoPlayer {
                        moves.push(i);
                    }
                    i = i + 1;
                }
                moves
            },
        }
    }

    /// Scans one group of lines and reports the first decided line's
    /// outcome from `player_jm`'s perspective.
    fn evaluate_lines(
        &self,
        lines: &Vec<Vec<usize>>,
        player_jm: &Mark,
        Ghost(abs): Ghost<Seq<Seq<usize>>>,
    ) -> (r: Option<Score>)
        requires
            self.wf(),
            lines_match(lines@, abs),
            forall|k: int| 0 <= k < abs.len() ==> #[trigger] line_wf(abs[k]),
        ensures
            r == match first_winner_from(self.pos@, abs) {
                Some(w) => if w == *player_jm {
                    Some(Score::Win)
                } else {
                    Some(Score::Loss)
                },
                None => None::<Score>,
            },
    {
        proof {
            assert(abs.skip(0) =~= abs);
        }
        let mut j: usize = 0;
        while j < lines.len()
            invariant
                j <= lines@.len(),
                self.wf(),
                lines_match(lines@, abs),
                forall|k: int| 0 <= k < abs.len() ==> #[trigger] line_wf(abs[k]),
                first_winner_from(self.pos@, abs) == first_winner_from(
                    self.pos@,
                    abs.skip(j as int),
                ),
            decreases lines@.len() - j,
        {
            let line = &lines[j];
            assert(line@ == abs[j as int]);
            assert(line_wf(abs[j as int]));
            let first = self.pos[line[0]];
            let second = self.pos[line[1]];
            let third = self.pos[line[2]];
            assert(abs.skip(j as int)[0] == abs[j as int]);
            if first != Mark::NoPlayer && second == first && third == first {
                assert(line_owner(self.pos@, abs[j as int]) == Some(first));
                return if first == *player_jm {
                    Some(Score::Win)
                } else {
                    Some(Score::Loss)
                };
            }
            assert(line_owner(self.pos@, abs[j as int]) is None);
            assert(abs.skip(j as int).drop_first() =~= abs.skip(j + 1));
            j = j + 1;
        }
        assert(abs.skip(abs.len() as int) =~= Seq::<Seq<usize>>::empty());
        None
    }

    /// The game result from `player_jm`'s perspective, or `None` while
    /// the game is still open.
    pub fn get_result(&self, player_jm: Mark) -> (r: Option<Score>)
        requires
            self.wf(),
        ensures
            r == spec_result(self.pos@, player_jm),
    {
        proof {
            lemma_all_lines_wf();
            lemma_first_winner_concat(self.pos@, column_lines(), row_lines() + diagonal_lines());
            lemma_first_winner_concat(self.pos@, row_lines(), diagonal_lines());
            assert(all_lines() =~= column_lines() + (row_lines() + diagonal_lines()));
            assert(forall|k: int| 0 <= k < 3 ==> #[trigger] line_wf(column_lines()[k]));
            assert(forall|k: int| 0 <= k < 3 ==> #[trigger] line_wf(row_lines()[k]));
            assert(forall|k: int| 0 <= k < 2 ==> #[trigger] line_wf(diagonal_lines()[k]));
        }
        let columns = self.evaluate_lines(&self.result_lines[0], &player_jm, Ghost(column_lines()));
        if let Some(winner) = columns {
            return Some(winner);
        }
        let rows = self.evaluate_lines(&self.result_lines[1], &player_jm, Ghost(row_lines()));
        if let Some(winner) = rows {
            return Some(winner);
        }
        let diagonals = self.evaluate_lines(
            &self.result_lines[2],
            &player_jm,
            Ghost(diagonal_lines()),
        );
        if let Some(winner) = diagonals {
            return Some(winner);
        }

        // No line is complete; a full board is a draw.
        let mut empties: usize = 0;
        let mut i: usize = 0;
        while i < BOARD_SIZE
            invariant
                i <= BOARD_SIZE,
                self.wf(),
                empties <= i,
                empties == empty_cells_upto(self.pos@, i as nat).len(),
            decreases BOARD_SIZE - i,
        {
            if self.pos[i] == Mark::NoPlayer {
                empties = empties + 1;
            }
            i = i + 1;
        }
        proof {
            assert(empty_cells(self.pos@) == empty_cells_upto(self.pos@, BOARD_SIZE as nat));
        }
        if empties == 0 {
            Some(Score::Draw)
        } else {
            None
        }
    }
}

/// Scanning a concatenation of line groups finds a winner in the
/// first group if there is one, and otherwise defers to the rest.
pub proof fn lemma_first_winner_concat(pos: Seq<Mark>, a: Seq<Seq<usize>>, b: Seq<Seq<usize>>)
    ensures
        first_winner_from(pos, a + b) == if first_winner_from(pos, a) is Some {
            first_winner_from(pos, a)
        } else {
            first_winner_from(pos, b)
        },
    decreases a.len(),
{
    if a.len() == 0 {
        assert(a + b =~= b);
    } else {
        assert((a + b)[0] == a[0]);
        assert((a + b).drop_first() =~= a.drop_first() + b);
        lemma_first_winner_concat(pos, a.drop_first(), b);
    }
}

/// A cell index is listed among the empty cells below `k` exactly when
/// it is below `k` and empty.
pub proof fn lemma_empty_cells_upto_contains(pos: Seq<Mark>, k: nat, m: usize)
    requires
        k <= pos.len(),
        k <= usize::MAX,
    ensures
        empty_cells_upto(pos, k).contains(m) <==> (m < k && pos[m as int] == Mark::NoPlayer),
    decreases k,
{
    if k > 0 {
        lemma_empty_cells_upto_contains(pos, (k - 1) as nat, m);
        if pos[k - 1] == Mark::NoPlayer {
            let prefix = empty_cells_upto(pos, (k - 1) as nat);
            vstd::seq_lib::lemma_seq_contains_after_push(prefix, (k - 1) as usize, m);
        }
    }
}

/// The empty-cell listing is strictly ascending, so it never repeats
/// a move.
pub proof fn lemma_empty_cells_upto_ascending(pos: Seq<Mark>, k: nat)
    requires
        k <= pos.len(),
        k <= usize::MAX,
    ensures
        forall|i: int, j: int| 0 <= i < j < empty_cells_upto(pos, k).len()
            ==> empty_cells_upto(pos, k)[i] < empty_cells_upto(pos, k)[j],
        forall|i: int| 0 <= i < empty_cells_upto(pos, k).len()
            ==> empty_cells_upto(pos, k)[i] < k,
    decreases k,
{
    if k > 0 {
        lemma_empty_cells_upto_ascending(pos, (k - 1) as nat);
        let prefix = empty_cells_upto(pos, (k - 1) as nat);
        let cur = empty_cells_upto(pos, k);
        if pos[k - 1] == Mark::NoPlayer {
            assert(cur == prefix.push((k - 1) as usize));
            assert forall|i: int| 0 <= i < cur.len() implies cur[i] < k by {
                if i < prefix.len() {
                    assert(cur[i] == prefix[i]);
                }
            }
            assert forall|i: int, j: int| 0 <= i < j < cur.len() implies cur[i] < cur[j] by {
                if j < prefix.len() {
                    assert(cur[i] == prefix[i] && cur[j] == prefix[j]);
                } else {
                    assert(cur[j] == (k - 1) as usize);
                    assert(cur[i] == prefix[i]);
                }
            }
        }
    }
}

/// Playing into an empty cell reduces the number of empty cells below
/// `k` by one if the cell is below `k`, and leaves it alone otherwise.
pub proof fn lemma_empty_cells_upto_update(pos: Seq<Mark>, k: nat, m: usize, p: Mark)
    requires
        k <= pos.len(),
        k <= usize::MAX,
        m < pos.len(),
        pos[m as int] == Mark::NoPlayer,
        p != Mark::NoPlayer,
    ensures
        empty_cells_upto(pos.update(m as int, p), k).len() == if m < k {
            empty_cells_upto(pos, k).len() - 1
        } else {
            empty_cells_upto(pos, k).len() as int
        },
    decreases k,
{
    if k > 0 {
        lemma_empty_cells_upto_update(pos, (k - 1) as nat, m, p);
    }
}

/// For the two real players, one side's result mirrors the other's:
/// the two half-point scores of a finished game always sum to two, and
/// a draw is a draw for both.
pub proof fn lemma_result_symmetry(pos: Seq<Mark>, a: Mark, b: Mark)
    requires
        a != b,
        a != Mark::NoPlayer,
        b != Mark::NoPlayer,
        is_terminal(pos),
    ensures
        spec_result(pos, a) is Some,
        spec_result(pos, b) is Some,
        spec_result(pos, a).unwrap().spec_half_points() + spec_result(
            pos,
            b,
        ).unwrap().spec_half_points() == 2,
        spec_result(pos, a) == Some(Score::Draw) <==> spec_result(pos, b) == Some(Score::Draw),
{
    match first_winner(pos) {
        Some(w) => {
            lemma_first_winner_is_player(pos, all_lines());
        },
        None => {},
    }
}

/// A winner reported by the line scan is always a real player's mark.
proof fn lemma_first_winner_is_player(pos: Seq<Mark>, lines: Seq<Seq<usize>>)
    ensures
        first_winner_from(pos, lines) matches Some(w) ==> w != Mark::NoPlayer,
    decreases lines.len(),
{
    if lines.len() > 0 {
        lemma_first_winner_is_player(pos, lines.drop_first());
    }
}

/// Playing a move into an empty cell costs exactly one extra undo
/// step: undoing it restores whatever the previous undo count
/// restored. This is the heart of the scoped-simulation guarantee.
pub proof fn lemma_unwound_after_move(
    pos: Seq<Mark>,
    player_jm: Mark,
    hist: Seq<usize>,
    m: usize,
    k: nat,
)
    requires
        m < pos.len(),
        pos[m as int] == Mark::NoPlayer,
        player_jm != Mark::NoPlayer,
    ensures
        unwound(
            pos.update(m as int, other_player(player_jm)),
            other_player(player_jm),
            hist.push(m),
            k + 1,
        ) == unwound(pos, player_jm, hist, k),
{
    let new_pos = pos.update(m as int, other_player(player_jm));
    let new_hist = hist.push(m);
    assert(new_hist.last() == m);
    assert(new_hist.drop_last() =~= hist);
    assert(new_pos.update(m as int, Mark::NoPlayer) =~= pos);
    assert(other_player(other_player(player_jm)) == player_jm);
}


} // verus!
